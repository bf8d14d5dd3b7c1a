# fast-mcp-ssh

An MCP server that gives a model SSH access: one connection per host held open
across calls, a PTY shell that remembers `cd` and `export`, SFTP, host-to-host
copies, screenshots, guards before anything leaves the machine, and an audit log
of every call.

`src/` is the library. It holds everything that decides or computes, each
function with the contract that Verus proves it meets:

- `guards`, `paths`, `confirm`, `server`: what may run or be touched, and what
  the user is asked first
- `config`, `ssh_config`, `known_hosts`: the operator's files
- `session`: host keys, channels, capturing output, persistent shells
- `sftp`, `tail`, `forward`: planning transfers and removals
- `tools`, `output`, `errors`: what each tool runs and how its answer reads;
  `tools::gate` hands out commands and paths only once the guards let them
  through
- `audit`, `json`, `text`, `bytes`: what is written down

Properties that span several functions are stated as `law_*` proof functions
next to the definitions they speak of. What is taken on trust from other crates
is marked `external_body` or `assume_specification`, with the claim in its doc
comment.

`app/` is the program around it: the command line, the SSH and SFTP connections,
files, and the MCP transport. `tests/` runs the library.
