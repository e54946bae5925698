# helix_state

What a modal text editor keeps of its state between two runs, and how it shows the undo history of a
document:

- `session`, `restore`: the open views of an editor as a stored session, and how a session is restored
- `file_state`, `saving`: cursor, scroll position and undo history of each file, and the steps by
  which they are saved
- `storage`: where sessions and file states are stored
- `tree_lines`, `undotree`: the lines of the undo tree, the selection in it and what is drawn of it
- `undo_laws`: what holds of the undo tree as a whole
- `editor`: what all this reads of an editor
- `forest`, `text`: trees that are stored as links between nodes; numerals and durations

The library does no input or output of its own. `app/` connects it to an editor, to files and to the
screen.
