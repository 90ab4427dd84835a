# rustos

A small AArch64 teaching kernel for QEMU's `virt` machine, with its user
shell and its file-system image builder, written as a Verus library whose
functions carry their contracts.

The kernel's state is modelled in plain values: physical RAM and the frame
allocator (`memory`), the translation tables and what the MMU reads through
them (`pt_spec`, `virtual_memory`), the process table and the scheduler
(`process`, `scheduler`), the ELF loader (`elf`, `exec`), the interrupt
controller and the system-call decoder (`irq`), the virtio disk's bring-up
(`virtio`), the UART logger (`log`), boot (`boot`), the shell's line editor
(`sh`) and the `mkfs` image builder (`mkfs`).

`app/` holds what touches the machine or the host: the memory-mapped
registers, the system registers and the exception entry points, the loops
that drive the library's decisions, the user programs' system-call stubs,
and the `mkfs` command-line tool.

`tests/` exercises the library on concrete values.
