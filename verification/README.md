# simple_graphics_controller

A controller of graphics resources for Linux. A server owns the framebuffer,
the display cards and the input devices, and hands them out to clients over the
abstract Unix socket `@sgc`. When several clients want a resource, a policy
decides who gets it.

`src/` is the verified library: every decision that the server and its clients
make, with contracts proved by Verus.

| what                                   | where                                       |
| -------------------------------------- | ------------------------------------------- |
| who gets a resource                    | `policy`, `slot`, `engine`, `control`       |
| what that guarantees to clients        | `guarantees`                                |
| messages, their bytes and their frames | `message`, `wire`, `frame`                  |
| one client's connection                | `connection`, `client_id`                   |
| what there is to grant                 | `registry`, `cards`, `input`, `resources`   |
| a client's session                     | `client`                                    |
| what the demo clients draw and read    | `render`, `timer`, `motion`, `modeset`, `scene`, `mouse` |
| names in directories, and texts        | `listing`, `text`                           |

Public proof functions state what holds of several functions together, such as
that a framed payload is read back, or that a revoked owner gets one more turn.

`app/` holds the programs around it: sockets, devices, threads and tasks.
`app/main.rs` runs the server (`serve`) and three demo clients (`fbdev`,
`board`, `card`).

Time is counted in milliseconds, and descriptors are plain numbers; opening,
duplicating and closing them is up to `app/`.

The policy is chosen with `SGC_POLICY`: `fair-queue` (the default),
`latest-owner` or `first-owner`.
