# auxbookmark

A verified library behind a command-line bridge between a file manager and the bookmarks of web
browsers. Bookmarks of Chromium browsers (a JSON file) and of Firefox (a SQLite database) are shown
as files under `aux://S_auxbookmark/<browser>/<folder>/...`, and can be listed, moved, copied,
renamed, deleted, exported and checked for dead links.

## Layout

- `src/` is the library. It is written in Verus: every function is proved to meet its contract.
  - `text`, `number`, `time`, `guid`: texts, decimal numbers, time stamps, identifiers.
  - `value`, `node`, `tree`, `place`: JSON documents, bookmark nodes, routes through a document, and
    places of nodes.
  - `path`: virtual paths and their segments.
  - `edit`: taking nodes out, putting them in, deleting, renaming, making folders.
  - `command`, `work`: what the commands ask for, and the order of their work.
  - `store`, `firefox`, `sync`, `table`: the stores of the browsers, and the history shown beside them.
  - `listing`, `export`, `check`, `report`: what is shown, exported, checked and reported.
  - `config`, `backup`, `cli`, `fault`: settings, backups, the command line, failures.
- `app/` is the program around it: arguments, files, the database, requests.
- `tests/` runs the library on concrete values.

## What is proved

Contracts say what each function returns or changes, over mathematical models of texts and
documents. The functions named `law_...` state what holds of the library as a whole, such as:

- what is deleted outside the trash lies at the end of the trash, and what is deleted in the trash,
  whichever way it is reached, is gone; a deletion that fails loses nothing;
- what is moved or copied keeps all its members but its identifiers, and a copy its dates; on its way
  into a table of Firefox it also loses its row numbers, so that it gets new rows;
- dead links, and only they, leave their folders, whatever other links have their names; one that
  has shifted since it was checked is found again in its folder;
- the history is read only, and is never stored with the bookmarks;
- no file is written before it was offered for backup and read;
- a task that fails changes no file, unless it moves a node to another browser;
- a node that moves to another browser leaves the file of the one and enters that of the other;
- what is listed can be reached under the name it is listed with;
- a clean export is the full export of what is left without the trash folders;
- pruning keeps the newest backups;
- writing back what was read from Firefox updates each folder and link under the three roots as it
  is, inserts no row, and deletes none of these;
- the table of Firefox, read after all changes in the order in which it is asked for, gives the
  folders and links that were written;
- a document that is written is read back, unless it holds fractions or is too deep;
- names joined to a path are read back, and escaped text can be unescaped;
- an option has a value exactly where one stands behind its name.

Calls into `chrono`, `serde_json` and `std` that the proofs rest on stand in small functions whose
doc comments say what is taken for granted.
