# basisu

A verified core of a Basis Universal texture transcoder, written in Verus.

`src/` is the library. Every function in it carries a contract that Verus
proves:

- `ktx2` parses and validates KTX2 container headers.
- `pvrtc` encodes PVRTC1 4bpp images from ETC1S, UASTC or raw pixel blocks,
  with block addressing in Morton order (`pvrtc::swizzle`) and the
  endpoint quantizers (`pvrtc::tables`).
- `tables` holds the ETC1S solution-table bundles (their byte format, a
  registry that installs them, and the readers), the BC1 single-color match
  tables and the DXT5A selector remap.
- `support` decides which source/target pairs a build can transcode.
- `fastenc` holds the integer parts of the real-time ETC1, BC7 and BC6H
  packers: block statistics and covariance, the routing of a block to a BC7
  pipeline, extreme texels along an axis, the final choice among candidate
  blocks, color and selector writers, all eight BC7 block writers and the
  BC7 decoder, partition-pattern matching, the BC6H block classes, anchor
  normalisation, pattern choice and endpoint delta coding, and the BC6H
  dequantizers.
- `bitfield` holds the little-endian bit-string facts the block writers and
  readers are proved with.

Besides the contracts of single functions, `src/` proves laws that span
several: every BC7 writer's block decodes to the texels it was given, a
BC6H block read from its other end decodes the same, a BC6H difference-mode
endpoint is given back by its stored delta, a block's channel
variance vanishes exactly when it is one colour, the
ETC1S bundle format round-trips, installing tables fills exactly the empty
slots of their family, and the support matrix's HDR and XUASTC rules.

`app/` joins the verified ETC1 stages with the float decisions of the ETC1
packers (which way to split a block, which modifier table fits it) and keeps
the process-wide table caches. `tests/` exercises the library on concrete
values.

Not provided: the real-time BC7 packers (`fast_pack_bc7_auto_rgb`,
`fast_pack_bc7_auto_rgba` and the pipelines behind them) and the real-time
BC6H packer (`fast_encode_bc6h`). Their endpoint fits, weight assignment and
error estimates are floating point, and they rely on tables and the BC6H
block packer (`uastc::bc7_tables`, `uastc_hdr::bc6h`) that are not part of
this source. What they decide in integers stands in `src/` with contracts:
the pipeline a block is routed to (`bc7_pipeline_for`), block and per-subset
statistics, the two-subset pattern nearest a desired split, extreme texels
along an axis, the trivial mode-6 endpoints, the final choice among
candidate blocks, every BC7 block writer and the decoder; for BC6H the block
class, simple endpoints, pattern choice, delta fit and coding, and the anchor
flips. A caller that supplies the floating-point fit can assemble a packer
from these stages; no packer is assembled here.
