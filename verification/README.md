# forge_scriptgen

Finds the deployable Solidity contracts of a project and writes a Foundry
deployment script for one of them. The scanning, parsing, selection, path
and rendering logic lives in `src/` and is verified with Verus; `app/` holds
the command-line program, which reads files, prompts and writes the script.

Modules of the library:

- `text`, `scan`: character classes, trimming, and scanning over source text.
- `tracker`: string-literal and bracket-depth trackers.
- `comments`: removal of `//` and `/* */` comments, keeping line breaks.
- `params`: splitting constructor parameter lists and naming parameters.
- `contracts`: the string-walking contract parser, pragmas, signatures.
- `json`: constructor arguments read from a JSON array.
- `paths`, `select`, `discover`: import paths, contract selection, discovery.
- `cli`, `render`, `input`: options, help and listing text, the script itself.
- `plan`: the step a run takes once the contracts are known.
