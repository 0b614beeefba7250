# bili_add_on

Overlays Bilibili danmaku (bullet comments) onto a video: it reads danmaku XML, finds room for every
comment on the frame, draws it, and keeps the audio in step.

The library under `src/` is verified with Verus. What it decides and computes is stated in contracts
and proved; calls into other crates stand behind small wrappers whose contracts are believed. The
program under `app/` does the rest: command line, files, network, codecs, fonts and threads.

| Part | Modules |
|------|---------|
| Danmaku documents | `document`, `danmaku`, `markup`, `xml`, `json`, `pattern`, `encoding`, `web` |
| Placing and drawing | `layout`, `layout_laws`, `stage`, `rails`, `raster`, `fonts`, `growable` |
| Time | `timeline`, `schedule`, `decoder`, `encoder`, `audio`, `progress`, `duration` |
| Numbers and text | `double`, `arith`, `single`, `rounding`, `text` |
| The command line | `options`, `workflow`, `hw`, `i18n` |

Public proof functions named `law_...` state what holds of the library as a whole: that danmaku on
one screen do not collide, that what is cut, shifted or extended lands where it should, and that
arithmetic on double-precision numbers rounds as IEEE 754 says.
