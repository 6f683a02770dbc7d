# syncdash

Table-driven file sync: two roots are scanned into tables, the tables are compared into a plan, and
the plan is carried out step by step. Roots are local directories, SMB shares, SFTP and FTP servers.

* `src/` is the library. Every item of it is verified by Verus: what a filter lets through, what a plan
  holds, what a step does next after every answer of a filesystem, when a lock is taken over, how a
  server's answer is read.
  * `foundation/` — paths, names, texts, times and numbers
  * `filter`, `table`, `compare`, `plan_laws` — from tables to plans
  * `chunk`, `apply`, `atomic` — carrying plans out
  * `fs/` — locks, staged files, confined local roots, SSH logins, watches, and under `fs/vfs/` the
    backends: a filesystem in memory, local disks, SMB, SFTP and FTP
  * `config`, `cli/`, `gui` — jobs, commands and the window's state
* `app/` is the `syncdash` program around it: arguments, files, sockets, the credential store. It asks
  the library what to do and does it.
* `tests/` run the library on concrete values.

Where a decision waits for the outside world, the library is a machine: it names the next deed, takes
the reply, and names the next one. The laws over these machines are the public proof functions of the
modules.
