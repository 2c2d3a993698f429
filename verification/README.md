# oxideav-vc2

A decoder for VC-2, an open intra-frame wavelet video compression system, whose
behaviour is stated in contracts and proved by Verus.

- `src/` is the library. Every function carries its contract over mathematical
  models: the reader's input (`bitio::Input`), grids of samples (`grid::Grid`),
  parsed headers, the stream walker (`sequence::Walker`) and the packet decoder
  (`decoder::PacketState`). The proof functions whose names begin with `law_`
  state what holds across functions: truncated input never passes for whole
  input, chunks and packets may be cut between data units, fragmented pictures
  decode to what unfragmented ones do, pictures decode independently of each
  other, and the codes, the DC prediction and the wavelet transform of a whole
  component are taken back without loss.
- `tests/` runs the library from outside.
- `app/` plugs the decoder into the `oxideav-core` multimedia framework.

`decode_sequence` decodes a whole stream:

```rust
let pictures = oxideav_vc2::decode_sequence(stream)?;
for p in &pictures {
    println!("picture {} is {}x{}", p.picture_number, p.luma_width, p.luma_height);
}
```

Input in chunks goes through `SequenceDecoder`, packets through `Vc2Decoder`.
