# muellbot

A Telegram bot that reminds its subscribers of waste collection days.

The collection table is a semicolon separated file: the first line names the
kinds of waste, one per column, and every further line holds collection dates
(`day.month.year`) by column. The bot answers `/muell` with the next date of
each kind, and before each collection it wakes up at fixed local times to send
the subscribers a message saying which waste is collected.

## Layout

- `src/` is the library, verified with Verus:
  - `text.rs`: trimming, splitting and comparing text;
  - `calendar.rs`: days and clock readings as integers, and the calls into
    `chrono` that parse, format and read them;
  - `dates.rs`: the collection calendar (`DateMgr`) and what holds of it;
  - `bot.rs`: answers to chat commands;
  - `reminder.rs`: the wake-up schedule and the reminder texts;
  - `id_list.rs`: the subscriber list;
  - `tgapi/`: the message types of the bot API.
- `app/` is the program around it: files, the webhook server (iron), sending
  messages (reqwest), JSON (serde) and the reminder thread.
- `tests/` runs the library on concrete values.
