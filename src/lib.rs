//! Engine of a modular content installer: decodes selection semantics from
//! sentinel characters in folder names, builds and flattens the option tree,
//! resolves selections to source assets, and plans the backup and copy
//! stages while tracking progress.

pub mod text;
pub mod codec;
pub mod order;
pub mod tree;
pub mod flatten;
pub mod resolve;
pub mod progress;
pub mod cleanup;
pub mod copy;
pub mod assets;
