# wasamix

A system tray application for Windows that mixes a microphone with what the
system plays, and writes the mix to a VB-Audio virtual cable, where a recording
application can pick it up as a microphone.

- Left-click the tray icon to start and stop mixing.
- Right-click it to choose the input microphone and the output sound, that is
  the device you listen through.
- The icon is colored by the level of the mix; `"show_level_meter": false` in
  `config.json` turns that off.
- `"output_device_id"` in `config.json` pins another destination than the
  detected cable; that device cannot be the output sound as well.

## Layout

`src/` is a library whose code is verified with Verus: every function states
what it returns or changes, and the proof functions named `law_...` state what
holds across functions.

| Module           | What it holds                                                   |
| ---------------- | --------------------------------------------------------------- |
| `audio::samples` | 16-bit samples as bytes                                         |
| `audio::single`  | single-precision numbers, exactly, on integers                  |
| `audio::mixer`   | the ring buffer, mixing, peaks, conversion of float streams     |
| `audio::capture` | conversion of packets, the capture and render loops step by step, the search for a loopback device |
| `audio::devices` | which devices are listed, and which cable is the destination    |
| `audio::pipeline`| the next chunk of the mix, and the threads of a pipeline        |
| `config`         | the configuration and its defaults                              |
| `text`           | searching in names                                              |
| `tray`           | levels and icons, the menu, and the application's state         |

`app/` is the program around it: device streams, threads, files, the tray icon
and the event loop.  `tests/` runs the library on concrete values.
