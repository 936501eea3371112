# digicompass

The decision-making core of a handheld compass that points to the nearest of a list of places. It
is written in Verus: what each function does is stated in its contract and proved. The proofs rest
on the contracts of a few calls that are trusted, each with a comment that says what is claimed of
it: the lexer of `hifijson` (`locations/json.rs`), the limited strings of `heapless` (`crash.rs`),
dates and month names of `time` (`date.rs`), and the standard library's reading of UTF-8 and
`String::push` (`text.rs`).

- `gps`: the sentences of the satellite receiver, the link to it, and what is known of the position
- `locations`: the list of places as GeoJSON text, read byte by byte, the names in the strings
  file, and when what was kept on the card is still good
- `data`: what is shown of the place to go to, and the battery level
- `ui`, `leds`, `crash`: what stands on the screen and on the ring of lights
- `logger`, `wait`, `device`: the log, waiting with a limit, interrupts, the clock and the main loop
- `date`, `text`: dates and plain text

`app/` is the program around it: the devices of the board, the storage card, and everything in
floating point. `tests/` runs the library on concrete values.
