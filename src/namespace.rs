use vstd::prelude::*;
use vstd::string::*;
use crate::error::StoreError;
use crate::version::{file_chars, VersionStamp};

verus! {

/// The directory, relative to the working directory, under which all groups live.
pub open spec fn storage_root() -> Seq<char> {
    "./data_storage"@
}

/// A `group` or `entity` names exactly one directory level: it is not empty,
/// holds no path separator or NUL, and is neither `.` nor `..`.
pub open spec fn valid_identifier(s: Seq<char>) -> bool {
    &&& s.len() > 0
    &&& s != seq!['.']
    &&& s != seq!['.', '.']
    &&& forall|i: int| 0 <= i < s.len() ==> #[trigger] s[i] != '/' && s[i] != '\\' && s[i] != '\0'
}

/// Whether `s` may be used as a `group`, an `entity` or a file name.
pub fn is_valid_identifier(s: &str) -> (r: bool)
    ensures
        r == valid_identifier(s@),
{
    let n = s.unicode_len();
    if n == 0 {
        return false;
    }
    if n <= 2 {
        let mut dots = true;
        let mut k: usize = 0;
        while k < n
            invariant
                n == s@.len(),
                k <= n,
                dots == forall|j: int| 0 <= j < k ==> s@[j] == '.',
            decreases n - k,
        {
            dots = dots && s.get_char(k) == '.';
            k = k + 1;
        }
        if dots {
            assert(s@ =~= seq!['.'] || s@ =~= seq!['.', '.']);
            return false;
        }
        assert(exists|j: int| 0 <= j < n && s@[j] != '.');
    }
    let mut i: usize = 0;
    while i < n
        invariant
            n == s@.len(),
            i <= n,
            forall|j: int| 0 <= j < i ==> #[trigger] s@[j] != '/' && s@[j] != '\\' && s@[j] != '\0',
        decreases n - i,
    {
        let c = s.get_char(i);
        if c == '/' || c == '\\' || c == '\0' {
            return false;
        }
        i = i + 1;
    }
    true
}

/// Checks a namespace before anything touches the storage.
pub fn check_namespace(group: &str, entity: &str) -> (r: Result<(), StoreError>)
    ensures
        r is Ok <==> valid_identifier(group@) && valid_identifier(entity@),
        r is Err ==> r == Err::<(), StoreError>(StoreError::InvalidIdentifier),
{
    if is_valid_identifier(group) && is_valid_identifier(entity) {
        Ok(())
    } else {
        Err(StoreError::InvalidIdentifier)
    }
}

/// The directory of a namespace: `./data_storage/<group>/<entity>`.
pub open spec fn namespace_path(group: Seq<char>, entity: Seq<char>) -> Seq<char> {
    storage_root() + seq!['/'] + group + seq!['/'] + entity
}

/// The directory of a namespace, once both identifiers are checked.
pub fn namespace_dir(group: &str, entity: &str) -> (r: Result<String, StoreError>)
    ensures
        r is Ok <==> valid_identifier(group@) && valid_identifier(entity@),
        r matches Ok(p) ==> p@ == namespace_path(group@, entity@),
        r is Err ==> r == Err::<String, StoreError>(StoreError::InvalidIdentifier),
{
    check_namespace(group, entity)?;
    let mut p = String::from_str("./data_storage");
    p.append("/");
    p.append(group);
    p.append("/");
    p.append(entity);
    proof {
        reveal_strlit("./data_storage");
        reveal_strlit("/");
    }
    Ok(p)
}

/// The path of a file inside a namespace:
/// `./data_storage/<group>/<entity>/<file_name>`. Every part is checked first, so
/// no part can leave the storage root.
pub fn build_file_name(group: &str, entity: &str, file_name: &str) -> (r: Result<String, StoreError>)
    ensures
        r is Ok <==> valid_identifier(group@) && valid_identifier(entity@) && valid_identifier(
            file_name@,
        ),
        r matches Ok(p) ==> p@ == namespace_path(group@, entity@) + seq!['/'] + file_name@,
        r is Err ==> r == Err::<String, StoreError>(StoreError::InvalidIdentifier),
{
    let mut p = namespace_dir(group, entity)?;
    if !is_valid_identifier(file_name) {
        return Err(StoreError::InvalidIdentifier);
    }
    p.append("/");
    p.append(file_name);
    proof {
        reveal_strlit("/");
    }
    Ok(p)
}

/// The path of the file for a new version written at `now`.
pub fn generate_file_name(group: &str, entity: &str, now: VersionStamp) -> (r: Result<
    String,
    StoreError,
>)
    requires
        now.fits(),
    ensures
        r is Ok <==> valid_identifier(group@) && valid_identifier(entity@),
        r matches Ok(p) ==> p@ == namespace_path(group@, entity@) + seq!['/'] + file_chars(now),
        r is Err ==> r == Err::<String, StoreError>(StoreError::InvalidIdentifier),
{
    let name = now.file_name();
    proof {
        crate::version::lemma_file_name_round_trip(now);
        assert forall|i: int| 0 <= i < name@.len() implies #[trigger] name@[i] != '/' && name@[i]
            != '\\' && name@[i] != '\0' by {
            assert(crate::version::fits_at(name@[i], i));
        }
        assert(name@ != seq!['.']);
        assert(name@ != seq!['.', '.']);
    }
    build_file_name(group, entity, name.as_str())
}

} // verus!
