# dll-rs

A command-line tool that installs missing or broken Windows DLL files: it
looks the DLL up on `cn.dll-files.com`, downloads the ZIP package for x86 and
for x64 in parallel, takes the DLL out of it and writes it into the system
directory (`SysWOW64` / `System32`), backing up a file it replaces.

- `src/` is the library, verified with Verus: the command-line parsing, the
  choice of the DLL inside an archive, backup names and listings, the reading
  of the site's pages (through the `regex` crate), and the decisions around
  retrying requests and installing. Every public function states in its
  contract what it returns; the laws that span functions are proof functions
  beside them.
- `app/` is the program around it: network requests, files, the
  configuration file in JSON, threads and the interactive prompts.
- `tests/` runs the library on concrete inputs.
