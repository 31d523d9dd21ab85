# Skyrim Mod Manager

A mod manager for Skyrim on Linux and Windows: a global mod store, profiles
with a mod order and a plugin load order, and a deploy step that links the
winning files over the game's `Data` folder and can always give the vanilla
folder back.

The decisions are a verified library: what it returns and changes is stated in
contracts and proved with Verus. The program around it reads and writes files,
draws the window and talks to the person at the terminal.

## The library (`src/`)

| module | what it is about |
| --- | --- |
| `text`, `paths`, `bytes`, `sorting`, `graph` | strings, paths, byte fields, stable sorting, loops and orders in graphs |
| `tes4`, `validate` | plugin headers, missing masters, loops of masters, sorting a load order |
| `bsa` | the files inside archives, and where archives of several mods overlap |
| `ini`, `nxm` | one key of an INI file; `nxm://` links |
| `xml`, `fomod` | installers: options, choices, and the copies they come to |
| `store`, `install` | the mod store; how files get into it, step by step |
| `profile`, `config`, `app_paths` | profiles, remembered games, the manager's folders |
| `disk`, `prefix`, `game` | a snapshot of the disk; Wine prefixes and installs found in it |
| `vfs`, `mount` | conflicts, deploying and restoring, and their steps on disk |
| `saves`, `backup` | save games and backups |
| `cli`, `commands`, `color`, `window` | what commands, prompts and clicks lead to |
| `check`, `doctor`, `audit` | the self checks and their report |

What depends on the outside comes in as plain values: listings of folders, the
contents of files, the time, answers that were typed. Where work on the disk and
decisions alternate, the library is a small machine that tells the next step and
is told how it went (`vfs::Deploy`, `install::Filling`).

A few functions of std and of other crates are used as they are, and what is
claimed of them stands in the doc comment of each wrapper: making text lower
case, UTF-8, hashing paths and files, random ids, parsing XML.

## The program (`app/`)

`app/main.rs` is the command line, `skyrim-modmgr`; started under the name
`skyrim-modmgr-gui` it opens the window. The other files hold the input and
output: the JSON files, unpacking archives, looking at the disk, links and
junctions, the tools that the self checks run.
