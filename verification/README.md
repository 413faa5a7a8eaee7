# VOLE

Volume Output Level Executioner: a Windows tray application that binds
global hotkeys to per-application volume changes.

- `src/` is the verified library: the configuration schema and its
  validation (`config`), the migration of first-version files (`migrate`),
  where the file is kept (`places`), hotkey dispatch to audio sessions with toggle
  snapshots (`audio`), registration of the configured shortcuts (`hotkeys`, `runtime`) and
  replacement of the active configuration, the application
  catalogue for the picker (`catalog`), the autostart task's command lines
  (`autostart`) and the tray icon's pixels (`icon`). Volume levels are whole
  thousandths of full volume.
- `app/` is the Windows program around it: Core Audio, the process table and
  Start Menu scan, the JSON file, `schtasks.exe`, the tray and the message
  loop.
- `tests/` exercises the library against the in-memory audio backend.
