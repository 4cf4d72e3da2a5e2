# cutback

Version control for Kdenlive projects: it watches a project, commits every
save to a git repository in a `.cutback` directory beside it, and describes
what changed in sentences instead of XML.

The library in `src/` is written in Verus and verified:

- `xml`, `xml_parser`: the `.kdenlive` document as plain nodes (read with
  `roxmltree`) and the parser that turns those nodes into a `model::Project`;
  `xml_parser::json_lite` reads the marker and guide arrays.
- `differ`, `render`: what changed between two projects, and the sentences
  that say so.
- `term`, `cli`, `git_backend`, `watcher`: text widths and colour, command
  wording and decisions, commit messages, and which file events are saves.
- `text`, `keys`, `seqs`: string, ordered-key and sequence helpers.

Time values, frame rates, the document version and marker numbers are read as
floating point; the parser is handed functions that do that reading. The
program in `app/` supplies them, and does the command line, the disk, the
clock, git (`git2`) and file watching (`notify`).
