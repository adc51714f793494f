# crf

A codec for sequences of near-identical images, verified with Verus.

The first image of a sequence is coded on its own. Each later image is coded as a
difference to the first, to the one before or to the one before that, whichever is shortest, and
each frame is coded in whichever of several ways makes it shortest. Without a quality, decoding
gives back the images exactly.

## Layout

- `src/common`: what the encoder and the decoder share: the file format, prediction,
  transforms, quantisation, entropy codes as mathematical objects, parameters and errors.
- `src/encoder`: from images to bytes. `frame` and `adaptive` code one frame; `chain`
  decides what a frame refers to; `film` keeps the frames coded so far; `sequence`,
  `sequence_batched` and `streaming` are the three ways in.
- `src/decoder`: from bytes to images. `reconstruct` decodes one frame; `session` and
  `streaming` decode files.
- `app`: files and environment variables.
- `tests`: examples.

## What is proved

Every function has a contract in terms of a spec function that says which bytes or which samples come
out. On top of that, proof functions named `law_...` relate encoder and decoder:

- each entropy code, transform and payload reads back what was written;
- `encoder::coeff_coder::law_blocks_differ`: different blocks of coefficients give different bytes;
- `encoder::lengths::law_best_k_is_shortest`: no other parameter makes a zero-run code shorter;
- `decoder::exact::law_planar_roundtrip`, `law_small_planar_roundtrip`: three planes make the image;
- `decoder::roundtrip::law_roundtrip` and `law_encode_decode`: a sequence without a quality can be
  coded, and is restored exactly;
- `decoder::lossless::law_sequence_lossless`: whatever the codes, a sequence that was coded without
  loss is restored exactly;
- `decoder::lossless::law_chain_lossless`: the same for a sequence of differences;
- `decoder::playback::law_file_plays`: with or without loss, a decoder has the very frames that the
  encoder took it to have when it made differences to them;
- `decoder::readable::law_only_length_stops`: whatever the quality, frames of one size can be coded,
  as long as lengths fit their fields;
- `encoder::frame_form::law_contest_never_worse`: the frame that wins is no longer than any that
  competes;
- `encoder::streaming::law_streaming_is_batch`: pushing frames one by one gives the file that coding
  them together gives;
- `decoder::streaming::law_streaming_restores`: decoding frame by frame gives the frames that
  decoding the file as a whole gives;
- `decoder::footer::law_sealed_passes`: a file passes its own checksum.

The only thing that is not proved is `common::par::par_map`, which hands work to `rayon`.
