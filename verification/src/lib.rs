//! A small DLNA media server's logic: paths, media probing, DIDL rendering,
//! SOAP, SSDP and eventing, each with a machine-checked contract.

pub mod announce;
pub mod audio;
pub mod browse;
pub mod bytes;
pub mod date;
pub mod description;
pub mod didl;
pub mod encoding;
pub mod event;
pub mod folder;
pub mod host;
pub mod identity;
pub mod library;
pub mod media;
pub mod mkv;
pub mod mp4;
pub mod number;
pub mod path;
pub mod probe;
pub mod profile;
pub mod query;
pub mod range;
pub mod registrar;
pub mod seqs;
pub mod serve;
pub mod soap;
pub mod sort;
pub mod ssdp;
pub mod text;
pub mod url;
pub mod video;
pub mod xml;
