# dirmon

dirmon watches directories and sorts the files that appear in them into
folders by file type, following a configuration file such as

```ini
[/desired/path/here/]
TYPE_0 = mp3,wav
TYPE_1 = mov,mp4
TYPE_2 = txt,pdf
```

## Layout

- `src/` is the library, verified with Verus.
  - `helpers/config.rs` reads the configuration (parsed by `configparser`)
    into the monitored directories and their rules.
  - `helpers/rules.rs` holds the rules of a directory, ordered by type name,
    and the rules of every directory.
  - `helpers/extensions.rs` finds the type of an extension and the supported
    extensions and types.
  - `helpers/mod.rs` turns a directory listing into files and plans the
    folders to create and the moves to make.
  - `helpers/text.rs` holds the text operations: byte order, splitting at a
    separator, the extension of a file name.
  - `components/` holds files and directories, the path operations of the
    standard library, watching and reacting.
- `app/` is the program: command line, file system, and the watch loop.
- `tests/` runs the library on concrete inputs.
