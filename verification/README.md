# Prio

A small desktop list of priorities, opened by two global shortcuts: one to capture a task,
one to show the ordered list. Tasks carry a tier, an effort, a requester, an optional
deadline, tags and notes; a task that waits on someone sinks to the bottom, one without a
deadline greys out after two weeks, and the archive can be copied as a Markdown report of
the week.

## Layout

- `src/` is the library, written in Verus: every function there has a contract, and the
  laws of the application are proof functions beside the code they speak of.
  - `date.rs`: calendar arithmetic (day numbers, weekdays, the two written forms and
    reading them back).
  - `text.rs`: the string operations the rest builds on, stated over `Seq<char>`.
  - `store.rs`: tasks, the two lists, display order (tiers, then the waiting section),
    moves, archive and restore, the old tab-separated format, links in notes.
  - `tags.rs`, `people.rs`: the tag field, completion, the names and tags to suggest.
  - `card.rs`: what a card shows (urgency, deadline pill, staleness), link labels, the
    week's report.
  - `calendar.rs`, `form.rs`, `list.rs`: the calendar, the capture window and the list
    window, without their widgets.
  - `hotkey.rs`, `settings.rs`, `protocol.rs`, `resident.rs`: shortcuts and their
    translations, the settings, how a second launch and the settings panel talk to the
    resident process, and what the resident does with a shortcut.
  - `backup.rs`, `icon.rs`: the daily backups kept, the macOS menu bar template.
- `app/` is the program around it: windows and drawing (eframe), files, the socket or
  thread message that reaches the resident, the notification icon, one backend per system.
- `tests/` runs the library on concrete values.
