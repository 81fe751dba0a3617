# PulsePlex

PulsePlex turns MIDI triggers into light: a hit on a drum pad lights an envelope
that fades, envelopes are merged into a DMX universe where the highest value
takes precedence, and the result goes out over Art-Net and to Philips Hue
bridges.

The library under `src/` is written in Verus. Every function in it has a
contract that Verus proves, and the promises that span functions are proved as
`law_*` proof functions beside the code that they are about.

| Module | What it holds |
| --- | --- |
| `binary32` | IEEE 754 single-precision arithmetic on bit patterns |
| `envelope` | velocity curves and decay |
| `engine` | triggers, fading and highest-takes-precedence merging |
| `fixture` | fixture profiles and DMX addresses |
| `source`, `midi` | events, and the MIDI messages that cause them |
| `config` | the configuration and its compilation |
| `check` | checking a configuration before it is run |
| `edit` | changing single entries of a configuration file |
| `artnet`, `sink`, `shutdown` | frames on the wire, broadcasts, the last frame |
| `hue`, `json`, `tls` | Hue streaming, bridge replies, bridge certificates |
| `setup`, `daemon`, `dashboard`, `update` | the decisions of the program |
| `text` | operations on strings |

Intensities, rates and times are carried as the `u32` of their single-precision
encoding, so that fading and scaling are integer arithmetic with exact
contracts. The exponential function is the one operation that callers supply.

What is believed without proof stands in `text` (two functions of the standard
library), `setup` (one), `hue` (`byteorder`, `hex`), `update` (`semver`) and
`edit` (`toml_edit`). Each such item says what it claims.

A Hue target follows the behaviors that `output.hue` maps to its channels. With
`patch` entries, each a `hue_id` and a `dmx_address` counted from 0, its lights
follow the DMX universe instead.

`app/` is the program around the library: command line, files, terminal,
network and MIDI devices. It expects `default_edrums.toml`, `hue_ca_bundle.pem`
and the fixture profiles in `assets/` under its working directory.
