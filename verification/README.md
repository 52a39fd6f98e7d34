# backchannel: talk back to your host

`back` opens files, folders and URLs on your local machine from within an ssh
session, and puts data on its clipboard. It speaks over the forwarded ssh
agent: a daemon on the local machine answers backchannel's own agent extensions
and relays everything else, byte for byte, to the real agent.

## Layout

- `src/` is the library: what is decided and computed, with contracts that
  Verus proves. Sockets, files, processes and the environment are its callers';
  they hand in what they found as plain values and get back what to do. Paths
  are byte strings, durations are nanoseconds.
  - `proto`, `messages`: the wire: frames, extensions, requests and replies.
  - `daemon`: starting up, serving a client, passing messages on to the agent,
    finding out where a request comes from and how it is carried out.
  - `ssh_argv`, `peer`: the destination behind the process that carried a
    request.
  - `launch`, `uri`, `url`: the command line for VS Code, the program that runs
    it, and the wait for an editor to be closed.
  - `open`, `copy`, `transfer`, `pull`, `proxy`, `tunnel`: the subcommands of a
    remote, and the daemon's part in them.
  - `install`, `status`, `clipboard`, `progress`, `logging`, `paths`: what is
    said and done on either machine.
  - `path`, `text`, `binary64`, `say`: paths, text and numbers.
- `app/` is the `back` program around it.
- `tests/` runs the library on concrete values.

Proof functions named `law_...` state what holds of the library as a whole: that
what was encoded is decoded, that another user's connection is served nothing,
that nothing of ours reaches the agent and nothing else is kept from it, that a
client that is gone is never told of success, that a transferred file lands
under a harmless name, and the like.

What is believed without proof are the contracts of a few calls into std,
`percent_encoding` and `humantime`; each says so in its doc comment.
