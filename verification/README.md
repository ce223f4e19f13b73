# Veracage

Veracage opens LUKS and VeraCrypt volumes in a session of their own, under a system user of
their own, and shows the applications that work on them in one window.

`src/` is a Verus library with everything that is decided: how arguments are read, which
caller may touch which session, what the session's lock records, how a volume is closed, what
the configuration means, how commands and published files are written and read back, when the
host's clipboard is cleared, and which frame is drawn. Every function states its result, and
the `law_` functions state what holds across several of them. Calls into other crates stand
behind a few trusted functions, each of which says in its comment what is taken for granted.

`app/` is the program around it: system calls, windows, Wayland and the file system. It is
one binary that is the helper, the agent or the compositor by the name it is called by.

`tests/` runs the library on concrete values.
