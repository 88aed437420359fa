//! Atlas: dissemination of the off-chain attachments that on-chain contract
//! calls refer to by content hash.
//!
//! The crate holds the data model (`Attachment`, `AttachmentInstance`), the
//! reading of attachment instances from on-chain values, the database of
//! known instances and stored content, and the decision logic of the
//! downloader that drives pending instances to resolved.

use vstd::prelude::*;

pub use crate::attachment::{AtlasConfig, Attachment, AttachmentInstance};
pub use crate::db::AtlasDB;
pub use crate::download::AttachmentsDownloader;
pub use crate::onchain::OnchainInventoryLookup;

pub mod attachment;
pub mod db;
pub mod download;
pub mod hash;
pub mod onchain;
pub mod value;

verus! {

/// Shortest namespace that the name-registration contract accepts.
pub const BNS_NAMESPACE_MIN_LEN: usize = 1;

/// Longest namespace that the name-registration contract accepts.
pub const BNS_NAMESPACE_MAX_LEN: usize = 19;

/// Shortest name that the name-registration contract accepts.
pub const BNS_NAME_MIN_LEN: usize = 1;

/// Longest name that the name-registration contract accepts.
pub const BNS_NAME_MAX_LEN: usize = 16;

/// Most inventory pages that one request to a peer may ask for.
pub const MAX_ATTACHMENT_INV_PAGES_PER_REQUEST: usize = 8;

} // verus!
