# zcode_switcher

The verified core of a desktop tool that keeps several ZCode accounts and
switches between them. `src/` is a Verus library; every public function
carries a contract over mathematical models (`Seq`, `Json`, views of the
data types), and the `law_*` proof functions state properties that span
several calls.

| module | what it decides |
| --- | --- |
| `text` | character-level helpers: trimming, words, lines, search |
| `json` | the `JsonValue` tree, member lookup and update, compact text |
| `gateway` | gateway status, model names, endpoint URLs, key check, error replies |
| `bodies` | request bodies: stream flag, token estimate, OpenAI and ZCode bodies, ZCode's provider entry |
| `upstream` | which accounts and providers a request is tried on, in which order; model list; request headers |
| `dispatch` | the per-request state machine over those upstreams (captcha retries, relaying, errors) |
| `launcher` | the remote-debugging flag on launch entries, enable and disable plans, the choice of ZCode.app in a folder and the bundle that contains an executable |
| `restart` | which processes are ZCode's, how ZCode is launched again |
| `cdp` | which DevTools pages are reloaded and how their replies are read |
| `quota` | plan choice, balance labels, billing retries, the balance lines of ZCode's logs |

`app/` is ordinary Rust around the library: the axum server, HTTP requests,
process control through sysinfo, the DevTools WebSocket, file access, the
Windows COM calls for `.lnk` files and the floating-point quota fields. The
services of the surrounding desktop application (stored profiles, the
captcha service, data directories) reach it through the `host::Host` trait.
