# rustydlna7

A small DLNA media server for one directory, with a verified core.

- `src/` is the library, written in Verus. Every function in it has a contract.
  - `framing`: gathering the bytes of a request until its header block ends
  - `request`: byte ranges, object ids and action names in a request
  - `codec`, `codec_laws`: decoding what clients send, encoding and escaping names
  - `sanitize`: paths that cannot leave the media directory
  - `get`, `post`: what to do with a request, and what to reply
  - `send`: sending a file behind its header
  - `browse`, `browse_laws`: directory listings
  - `cache`, `precache`, `precache_laws`: listings that are made when the server starts
  - `pages`: the fixed pages, the configuration and the SSDP reply
  - `cli`: the arguments of the program
  - `bytes`, `order`, `seqs`, `text`: byte strings, the order of names, sequences, text
- `app/` is the program around it: sockets, files and timers, with tokio.
- `tests/` runs the library on concrete requests and names.

The proof functions whose names begin with `law_` state what holds of the
library as a whole: that no request leads out of the media directory, that a
listed file is opened again by its URL, that a listed directory is answered by
its id, that the way in which a request is split into reads does not matter.

Three items are taken on trust: `String::push`, `String::push_str` and
`String::from_utf8_lossy`, all in `src/text.rs`.

    rustydlna7 <LOCAL_IP> <MEDIA_DIR_PATH> <MULTICAST_IP>
