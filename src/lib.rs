//! Picks a release asset for the host platform, finds the executables in what it
//! unpacks to, and keeps the ledger of what was installed.
pub mod error;
pub mod exit;
pub mod ledger;
pub mod locate;
pub mod payload;
pub mod platform;
pub mod release;
pub mod repo;
pub mod select;
pub mod text;

pub use error::YoinkError;
pub use exit::exit_status_code;
pub use platform::{arch_tokens, os_tokens, PlatformProfile};
pub use locate::{
    binary_name, find_binaries, is_doc_extension_lowered, is_doc_name_lowered,
    is_probable_binary_candidate, locate_keyed, path_has_component, rank_by_path_length, FoundFile, Located,
};
pub use select::{
    asset_score, contains_any, ends_in_archive_suffix, is_archive_name, is_gzip_lowered, is_gzip_name,
    is_ignored_asset, is_noise_lowered, pick_asset, pick_ranked, score_lowered, Asset, Release,
};
pub use repo::{display_version, is_repo_shape, parse_repo};
pub use release::{release_info, resolve_release_info, ReleaseInfo};
pub use payload::{
    archive_format, archive_format_lowered, classify_asset, gzip_fast_path, gzip_output_name, plan_extra_installs,
    ArchiveFormat, PayloadKind,
};
pub use ledger::{
    list_installs, record_install, removal_continues, remove_install, uninstall, EntryModel,
    InstallEntry, InstallState, InstallSummary, RemovalOutcome,
};
pub use text::is_blank;
