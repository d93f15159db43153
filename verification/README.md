# process_scheduler

The decisions of a daemon that gives processes priorities, written in Rust and proved with Verus.

- `service`, `assignment`, `arrivals`, `children`, `refresh`, `foreground`, `streams`, `weights`:
  the daemon's state and what it does when processes start, come to the foreground or take part in
  audio and video streams.
- `process`, `scheduler`, `config`, `cgroup`, `cgroup_weights`, `eevdf`: the data behind it.
- `execsnoop`, `tracepoint`, `btf`, `probe`, `elf`: how successful execs are made known by the
  kernel.
- `pipewire`: which processes take part in streams.
- `document`, `text`, `text_map`, `number`, `bytes`: what the rest is built on.

The library holds no I/O. Functions take what was read and give back what is to be written; `app/`
reads and writes.
