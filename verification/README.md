# drive_game2

DRIVE GAME2, a small MSX racing game (MSX・FAN Fandom, by HASEMAKO), as a verified
library and a thin program around it.

The library (`src/`, verified with Verus) holds:

- `pitch`: PSG tone periods (O4A = 440 Hz) and PLAY note lengths (14400 / (T × L)),
  both computed exactly in integers.
- `mml`: the PLAY statement's MML strings read into sequencer events, with the
  channel settings that carry over between PLAYs.
- `psg`: the AY-3-8910's registers, envelope and noise generators, and the
  60 Hz PLAY sequencer.
- `screen`: the SCREEN 1 text screen (PRINT with its escape sequences, two sprites)
  and its picture as palette entries.
- `font`: the character patterns.
- `game`: the race's rules (road, car, obstacles, class line, RND, PRINT USING).
- `program`: the BASIC program as a state machine from answers to requests.

The program (`app/`) opens the window with macroquad, reads the keyboard and the
clock, times the waits as measured on a real MSX, and renders the sound with
tinyaudio; the PSG's sample-rate mixing, which is floating point, lives there.
