# m4againpy

Fixed-step gain adjustment of AAC audio in M4A/MP4 files. The library finds the
`global_gain` fields of the AAC bitstream and adds or subtracts a number of
native AAC gain steps (1 step is 1.5 dB): saturating at `0..=255`, with silent
fields (gain 0) left alone, and with no other bit of the file changed.

`src/` is the library, verified with Verus. `app/` holds what touches files and
Python: the file-to-file call, which reads the boxes and one sample at a time
and patches the copy chunk by chunk, and the Python module.

## Modules

| module | what it is about |
| --- | --- |
| `bits`, `bit_reader` | bits of bytes, 8-bit fields at any bit, reading bit by bit |
| `huffman`, `aac_codebooks`, `codebook_order` | Huffman codes, the codebooks of AAC, and why no code starts with another |
| `ics_syntax`, `ics_settled`, `ics` | a channel of AAC: its syntax, what its extent depends on, its parser |
| `raw_syntax`, `raw_block` | a raw data block of AAC and its parser |
| `mp4`, `sample_table`, `audio_config`, `relocation` | the boxes of the container, up to the samples and the sample rate |
| `analysis`, `gain`, `gain_laws`, `reanalysis` | all gains of a file in memory, their shift, and what a shift does |
| `file_analysis`, `file_patch`, `file_patch_laws`, `file_agreement`, `file_laws` | the same for a file of which only parts are in memory |
| `well_formed`, `well_formed_laws` | files whose movie box holds all that it leads to, and what holds of them |
| `metadata` | the record of a gain operation |

## Calls

`aac_apply_gain(data, gain_steps)` asks of its caller that the offsets and
tables of the file stay within its bytes. `try_aac_apply_gain` takes any bytes,
and gives no result where they do not.
