# glm_coding_xcode_proxy

A local proxy that relays chat-completion requests from Xcode to the Zhipu
GLM coding API, with its configuration file and launchd service management.

- `src/` is the verified library: the configuration file format (reading,
  setting, removing keys, with proofs that a key reads back as it was set),
  the settings read from it, the masked listing of the `config` command,
  the launchd property list and `launchctl` handling, the error answers and
  the retry schedule.
- `app/` is the program around it: the command line, the HTTP server and
  client, file access and process runs.
- `tests/` runs the library on concrete inputs.
