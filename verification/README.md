# pixel-ota

Online A/B updates for a Google Pixel (Tensor) running Linux: the decisions are a library that is
verified with [Verus](https://github.com/verus-lang/verus), the program around it reads, writes
and runs commands.

- `src/` is the library. It decides which slot is updated, which images are flashed where and in
  which order, when the slots are switched, and how the single-slot root file system is reflashed.
- `tests/` runs the library on concrete values.
- `app/` is the command `pixel-ota`.

| module    | what it decides                                                              |
|-----------|------------------------------------------------------------------------------|
| `slot`    | the running slot, the other slot, the device of a partition in a slot        |
| `flash`   | which images belong to the boot chain, and whether an image fits             |
| `bootctl` | the commands that switch slots and commit a slot                             |
| `update`  | what an update flashes, and each step of carrying it out                     |
| `rootfs`  | the reflash of the root: memory budget, backing partition, script, each step |
| `cli`     | the target slot of a request, the status report                              |
| `error`   | what can go wrong, and how it is reported                                    |
| `text`    | searching, lines, words and numbers                                          |
| `path`    | components, prefixes and joining of Unix paths                               |

Work that touches the system alternates with decisions. `update::run` and `rootfs::run` begin;
each step says what to print and what to do; its outcome goes to `update::next` or `rootfs::next`.

```sh
pixel-ota status
pixel-ota update /path/to/images --dry-run     # validate + show the plan
pixel-ota update /path/to/images               # flash inactive slot + switch
pixel-ota confirm                              # commit the slot after a good boot
pixel-ota flash-rootfs rootfs.img --dry-run    # validate + print the shutdown script
pixel-ota flash-rootfs rootfs.img              # stage, arm, reboot to flash
```
