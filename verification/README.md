# lib — an Ogg Vorbis decoder with a verified core

`src/` is the decoder's integer core, written in Verus and verified: the
bit reader and the Ogg page and packet layer (with the page CRC), Huffman
table construction and decoding, the setup-header parser, the floor-1
curves, the residue vectors of a packet, sample-position bookkeeping,
page search, stream length and the decisions of seeking and of decoding
pushed data. Contracts state results over the bits and bytes of the
stream where those lie in the current page or data block; some results
are left open (which residue vectors a packet holds, the floor values
read after a floor's two end points, whether the whole setup header is
accepted, whether a coarse seek on a valid stream succeeds), and the
contracts say what holds of every outcome there.

The bit reader is specified against the bits of the current packet that
its page holds (`page_bits`, `bits_in_page` in `ogg.rs`): reading `n` bits
gives their value, and the setup parsers (codebooks, floors, residues,
mappings, modes) state their results as fields of those bits. Huffman codes
are the ones the Vorbis format assigns (each entry the lowest free code of
its length), and a codebook that setup accepts decodes every code it holds
back to its entry.

`app/` is ordinary Rust around it: the floating-point synthesis (codebook
values, inverse coupling, floor amplitudes, the inverse MDCT, windowing and
overlap), conversion of samples to 16 bits, file access, and the loops that
drive seeks and pushed data with the library's decisions.

`tests/` exercise the library on hand-built Ogg streams.
