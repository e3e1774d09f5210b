//! Four-character codes, as big-endian numbers.

use vstd::prelude::*;

verus! {

// Box types.
pub const UUID: u32 = 0x7575_6964; // uuid
pub const FTYP: u32 = 0x6674_7970; // ftyp
pub const MOOV: u32 = 0x6d6f_6f76; // moov
pub const MOOF: u32 = 0x6d6f_6f66; // moof
pub const MDAT: u32 = 0x6d64_6174; // mdat
pub const STYP: u32 = 0x7374_7970; // styp
pub const MFHD: u32 = 0x6d66_6864; // mfhd
pub const TRAF: u32 = 0x7472_6166; // traf
pub const TFHD: u32 = 0x7466_6864; // tfhd
pub const TFDT: u32 = 0x7466_6474; // tfdt
pub const TRUN: u32 = 0x7472_756e; // trun
pub const SENC: u32 = 0x7365_6e63; // senc
pub const SBGP: u32 = 0x7362_6770; // sbgp
pub const SGPD: u32 = 0x7367_7064; // sgpd
pub const TENC: u32 = 0x7465_6e63; // tenc
pub const SINF: u32 = 0x7369_6e66; // sinf
pub const TRAK: u32 = 0x7472_616b; // trak
pub const TKHD: u32 = 0x746b_6864; // tkhd
pub const MDIA: u32 = 0x6d64_6961; // mdia
pub const EDTS: u32 = 0x6564_7473; // edts
pub const MDHD: u32 = 0x6d64_6864; // mdhd
pub const HDLR: u32 = 0x6864_6c72; // hdlr
pub const MINF: u32 = 0x6d69_6e66; // minf
pub const STBL: u32 = 0x7374_626c; // stbl
pub const STSD: u32 = 0x7374_7364; // stsd
pub const STTS: u32 = 0x7374_7473; // stts
pub const STSC: u32 = 0x7374_7363; // stsc
pub const STSZ: u32 = 0x7374_737a; // stsz
pub const STCO: u32 = 0x7374_636f; // stco
pub const CO64: u32 = 0x636f_3634; // co64
pub const STSS: u32 = 0x7374_7373; // stss
pub const CTTS: u32 = 0x6374_7473; // ctts
pub const MVHD: u32 = 0x6d76_6864; // mvhd
pub const VMHD: u32 = 0x766d_6864; // vmhd
pub const SMHD: u32 = 0x736d_6864; // smhd
pub const DINF: u32 = 0x6469_6e66; // dinf
pub const DREF: u32 = 0x6472_6566; // dref
pub const MVEX: u32 = 0x6d76_6578; // mvex
pub const TREX: u32 = 0x7472_6578; // trex
pub const URL_: u32 = 0x7572_6c20; // url, with a trailing space

// Brands.
pub const ISOM: u32 = 0x6973_6f6d; // isom
pub const MP42: u32 = 0x6d70_3432; // mp42
pub const ISO2: u32 = 0x6973_6f32; // iso2
pub const ISO4: u32 = 0x6973_6f34; // iso4
pub const ISO5: u32 = 0x6973_6f35; // iso5
pub const ISO6: u32 = 0x6973_6f36; // iso6
pub const CMFC: u32 = 0x636d_6663; // cmfc
pub const MP41: u32 = 0x6d70_3431; // mp41
pub const MSDH: u32 = 0x6d73_6468; // msdh

// Sample entries, handlers and grouping types.
pub const AVC1: u32 = 0x6176_6331; // avc1
pub const HVC1: u32 = 0x6876_6331; // hvc1
pub const HEV1: u32 = 0x6865_7631; // hev1
pub const MP4A: u32 = 0x6d70_3461; // mp4a
pub const VIDE: u32 = 0x7669_6465; // vide
pub const SOUN: u32 = 0x736f_756e; // soun
pub const SEIG: u32 = 0x7365_6967; // seig

} // verus!
