# Project Zero kernel core

The logic of the Project Zero microkernel, proved with Verus.

* `src/` is the library. Every function in it has a contract that Verus proves, and the laws that
  hold of the kernel as a whole stand beside the functions as proof functions named `law_..`.
  * `cap`: capabilities. The derivation tree, rights, transfer, revocation, and what the end of a
    process takes with it.
  * `ipc`: kernel objects, handles, channels, shared memory and queues of waiting threads.
  * `fs`: the filesystem. Block devices, the cache, inodes, directories, files, the journal and
    its recovery.
  * `dev`: the device registry, resources, interrupts, buffers for devices, register windows.
  * `elf`: checks on programs, and the loader.
  * `hal`: descriptor tables, exceptions, the local interrupt controller, timers, the serial line.
* `tests/` runs the library on concrete values.
* `app/` is the machine around the library: port access, processor registers, and the loops that
  carry out what the library decides.

The library keeps no state of its own. The tables of the kernel are values that an operation gets
by exclusive reference. What a piece of hardware or an allocator answers is an argument; what has
to be done outside, such as waking a thread or unmapping a page, is a result.
