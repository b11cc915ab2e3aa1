# file_sharing

A peer-to-peer file sharing application. A host shares folders, and whoever connects to it sees
their files as trees and downloads them over QUIC.

- `src/` is the library: the state of the application and every rule it follows, with contracts
  that Verus proves. `tree` and `shared` publish folders; `display` shows them and finds the file
  that was clicked; `dialog`, `message`, `download` and `transfer` take a download from the click to
  the history; `bandwidth` and `stamp` tell how fast it is; `application`, `port` and `server` hold
  the rest of the state and what the host does.
- `app/` is the program around it: the window, the disk and the network.
- `tests/` runs the library on examples.
