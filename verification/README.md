# rbe

Runs compiler commands on a service that speaks the remote execution API. The decisions are a
verified library; what touches the file system, the network and processes is ordinary Rust around
it.

## The library, `src/`

- `local_path`, `disk`, `os_text`, `text`, `digits`, `sorted`, `tables`: paths, what is known of the
  local file system, texts and tables.
- `digest`, `uploads`, `wire`, `messages`, `dir_builder`: content digests, the upload set and the
  input tree, and how they are encoded.
- `mapper`, `rewrite`, `environment`, `platform`, `program`, `prepare`, `probes`: how a command is
  turned into an action, and what has to be known of the file system for that.
- `endpoint`, `names`, `transfer`, `upload`, `outputs`, `metadata`, `fields`, `response`, `console`:
  where the service is, what is said to it and how its answers are read.
- `execution`, `executor`, `config`, `error`: the course of an execution, from event to request, and
  the executor.
- `tree_laws`, `path_laws`, `mapper_laws`, `rewrite_laws`, `execution_laws`, `wire_laws`: what holds
  of all this together. By the time an execution is asked for, everything that the service lacks has been sent;
  everything that the digest of an action leads to is in the upload set; different messages have
  different encodings; a local path keeps its remote place.

Paths and search paths follow the Unix grammar; whether programs have an extension is a setting of
the host.

## Around it, `app/`

`app/` looks at the file system for what `probes` lists, performs the requests of an `Execution`, and
hands the events back.
