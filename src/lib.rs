//! A versioned script store: version stamps, the version index, write planning,
//! retention and an in-memory history of one namespace.
pub mod error;
pub mod index;
pub mod namespace;
pub mod order;
pub mod store;
pub mod version;

pub use error::StoreError;
pub use version::{parse_file_name, stamp_from_unix, VersionStamp};
pub use namespace::{build_file_name, generate_file_name, check_namespace, is_valid_identifier, namespace_dir};
pub use index::{collect_files, file_names, latest, list_versions, versions_to_prune};
pub use store::{after_plan, latest_info, plan_write, WriteStep, COLLISION_RETRIES, same_payload, sentinel, History, StoredVersion, WriteOutcome, KEEP};
