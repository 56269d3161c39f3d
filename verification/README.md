# class_scheduler

Schedules students into presenter sessions for each of the periods of a day.
Students sign up with ranked session preferences; sessions have a minimum
and a maximum number of students per period; some sessions are closed to
middle schoolers.

The scheduler serves students in order (twelfth graders, then eleventh
graders, then everyone else; earlier sign-ups first), places them into their
preferred sessions, fills the periods left open with the emptiest sessions,
tops up sessions that fall below the minimum, and checks that the result is
consistent.

Layout:

- `src/` — the library, verified with Verus: reading the sign-up and session
  tables from the bytes of their CSV files, which the `csv` crate splits into
  records (`records`, `text`), validating them (`input`), the
  serving order and scores of a student (`student`, `order`), the schedule and
  its consistency test (`schedule`, `validity`), the state of a run
  and what every step keeps (`plan`), the scheduling passes (`assign`,
  `fill`, `topup`), a whole run (`scheduler`), and what the reports are built from
  (`report`); `seq_util` holds
  facts about sequences that the proofs share.
- `app/` — the program: reads the bytes of `students.csv` and `sessions.csv`, runs the
  scheduler, writes `output.csv` and prints satisfaction by grade.
- `tests/` — tests of the library.
