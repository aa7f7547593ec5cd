# Reminderski

Local reminders for Windows: select text, press the capture shortcut, say when. The reminder
waits in the notification area and comes back in the corner of the screen when it is due.

The crate is in two parts.

- `src/` is the library, verified with Verus: the Slack-style time expressions (`in 40m`,
  `at 3pm`, `friday at 9`, `next tuesday`), the line format of the reminder file, the settings
  file and its shortcuts, what the dashboard answers, what the notification and the input form
  decide and where their parts sit, the character on the notification, and the arithmetic of the
  message loop. Every public function states what it returns, and the promises the application
  makes as a whole (a stored reminder reads back, `next` only rules out today, a shortcut written
  back reads as the same shortcut, and so on) are proof functions beside the code they are about.
- `app/` is the program around it: the message loop, the windows, the tray icon, the clipboard,
  the registry, the files and the dashboard's socket. It calls the library for every decision.

`tests/` runs the library on the examples the behaviour was designed around.
