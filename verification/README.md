# ircd

A chain of chat events, verified with Verus.

Events name the event they follow, and together they form a tree. The end of its longest branch is
the head of the conversation. Whenever an event arrives, branches that have fallen too far behind
the head are given up and the root moves down towards the head, so that the tree stays small. An
event is hung in the tree if the event it follows is there and not too far behind the head.

- `src/` is the library. `event`, `serial`, `text` and `digest` hold events, their byte format,
  their text and their ids; `map` and `model` hold the tree as it is kept in memory, and `view`
  says which events a client has yet to see. `tree`, `shape`, `root` and `chain` hold the tree as
  a mathematical object and what happens to it, and `laws` what holds of it as a whole.
- `app/` is a program that builds a small chain and shows it.
- `tests/` runs the library.

Digests and hexadecimal text come from the crates `ripemd` and `hex`, the time from the system's
clock. What is taken for granted of them is written above the functions that call them.
