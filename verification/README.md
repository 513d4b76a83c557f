# otograph

Subtitles for video and audio files: the speech in each file is found with the Silero
voice activity model, each stretch of speech is transcribed by a Qwen3-ASR server, and
`<media>.srt` is written next to the file.

`src/` is the library. It holds what the program decides and computes, each function
with a contract that Verus proves:

- `vad`, `segment`, `segment_laws`: from the probability of speech in each window of a
  recording to its speech segments, and what holds of the segments of every recording;
- `wav`, `ieee`, `double`: samples, WAV files, and the floating-point numbers in them.
  Floating-point numbers are bit patterns here (`u32` for single precision, `u64` for
  double precision), and contracts speak of their exact values;
- `srt`: subtitles;
- `media`: media files, their order, their languages, and where their subtitles go;
- `langdetect`: the language of a file, by a vote over transcriptions;
- `asr`, `ffmpeg`, `container`, `device`: what is asked of the server, of ffmpeg, of
  docker and of the device, and what is made of their answers;
- `pipeline`, `run`: from segments to subtitles, and what is done with each file;
- `text`: texts as sequences of characters.

`app/` is the program around it: command line, files, processes, network, and the CUDA
driver. The kernel and the weights of the voice activity model are read from `assets/`,
where `kernel.json` describes them.

`tests/` compares the library with the arithmetic, paths and strings of the machine it
runs on, and checks single values.

```
otograph --language en video.mp4
otograph --lang-from-name /path/to/mixed
otograph --dry-run video.mp4
```
