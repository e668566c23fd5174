# vidsplice

Splits and joins videos with FFmpeg, without encoding them again: at points in time, by duration, or
by size at key frames.

`src/` is the library: everything that is decided. It reads the command line, times, sizes and what
ffprobe reports, chooses where to cut, names the outputs, and says step by step what is to be done to
split, join or probe a video. All of it is verified with Verus. Each of the three jobs (`split`,
`concat`, `probe`) is a value that says what it wants done next and is told how that went.

`app/` is the program around it: it does what a job wants done to files and processes, and prints.

`tests/` holds the tests of the library.
