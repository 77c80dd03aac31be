# Avelune

A small audiovisual codec family, written in Rust and verified with Verus: video (ALV1), audio
(ALA1), and an indexed container that can be read a fragment at a time.

- `src/bitstream`: varints, and entropy blocks coded with static rANS.
- `src/video/v1`: 8-bit 4:2:0 video. Blocks are predicted from neighbours or from earlier pictures,
  or coded with a palette; residuals go through an integer Walsh-Hadamard transform.
- `src/audio/v1`: 16-bit audio with a lifting wavelet and reversible stereo coupling.
- `src/container/v1`: file headers, front indexes, packets with checksums, incremental parsing, and
  a session that decodes a stream as it arrives.
- `src/reference`: a second, plain form of the codecs and of the container reader, for comparison.
- `src/kernels`: the arithmetic that both share.
- `src/mux`: encoders that are handed frames and samples, and write files or single epochs.
- `src/media`: whole clips and files: scene cuts, encoding, decoding, listing, new indexes, Y4M and
  PCM.
- `src/player.rs`, `src/handles.rs`: what a foreign caller holds on to.
- `app`: the command line program and the C interface, around the library.

Every function of the library states what it returns, and Verus proves it. What holds of the formats
as a whole stands in proof functions whose names start with `law_`: among others, that lossless
coding gives back what was encoded, that a decoder shows what the encoder reconstructed, that a
written file is read back and its index lists every epoch, that a packet with bytes missing or added
is refused, that the fragments in which a stream arrives do not matter, that epochs can be decoded
by themselves, and that both decoders agree.

Three functions of the standard library are called through wrappers whose contracts are taken as
given: the capacity of a `Vec`, `Arc::try_unwrap` and `std::str::from_utf8`.
