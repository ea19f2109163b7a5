# brtt

Core of a bidirectional RTT (Real-Time Transfer) console for embedded targets,
verified with Verus. The console shows what a target writes to its RTT up
channels, as terminal output or as defmt messages, logs it, and sends what is
typed to a down channel.

* `src/` is the library. Everything that decides or computes something is here
  with a contract: command line rules, discovery of the control block, decoding,
  line assembly, rendering, logging, keyboard routing and the states that a core
  goes through. Calls into other crates stand behind small items whose contracts
  are believed; each says in its comment what it claims.
* `tests/` runs the library on concrete values, with the other crates linked.
* `app/` is the program around it: options, probe, terminal, files and clock. It
  reads, hands plain values to the library, and performs the actions it gets back.

| module        | holds                                                        |
|---------------|--------------------------------------------------------------|
| `text`        | numbers, UTF-8 and pieces of text                            |
| `channel`     | identities of cores and channels                             |
| `ordered`     | a map that keeps its keys in order                           |
| `terminal`    | one line of a terminal, decoded from a byte stream           |
| `cli`         | option values and which of them go together                  |
| `defmt`       | levels, filters, decoding, and what an ELF file provides     |
| `formats`     | which defmt format strings can be decoded and printed        |
| `rtt`         | where a control block may be and the scan for it             |
| `logger`      | lines and files of a log                                     |
| `renderer`    | what appears on the screen                                   |
| `input`       | keys, commands and bytes waiting for a core                  |
| `target`      | attaching, polling, losing and resetting cores               |
| `session`     | how all of these work together                               |
| `diagnostics` | messages about the program itself                            |

## Limits on defmt tables

The decoder stops the program where a format string asks for something that it
cannot print, or for more room than there is. So a table is looked through when
it is loaded, and what might be hit is left out:

* A message is shown as `message 0x…`, its index, if it asks for a date of more
  than four bytes (`{=u64:iso8601ms}`), for CBOR, for a width of more than four
  digits, or for a bare byte as a variant (`{=u8}|…`); or if it prints an
  `{=isize}` and has a hint for hexadecimal digits that may reach it (`{:x}`, but not
  `{=u32:x}`). If it holds values with format strings of their own (`{}`), the format
  strings of all such values in the table count too.
* The timestamp is left out for the same reasons.
* A frame that names an entry which is no message of its own is shown by its index
  unless all entries can be printed.
* A table is refused if it numbers arguments or counts elements with more than six
  digits, sets a count off by more than one space, or writes letters, digits or
  signs of a format string as escapes.

How deep messages hold one another and how long their lists are is up to the
target. The stack and the memory for them are those of the machine.
