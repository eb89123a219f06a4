//! Well-known paths of the engine: the bookmark export location per
//! operating system, the cache directory layout, and the bundled assets.
//!
//! Path arithmetic is pure string work here; the process that decides which
//! base directories (cache, config) the machine provides hands them in as
//! plain strings.

use crate::utils::str_eq;
use vstd::prelude::*;
use vstd::string::StringExecFns;

verus! {

pub const LINUX_UBUNTU_BOOKMARKS_PATH: &'static str = "google-chrome/Default/Bookmarks";

pub const WINDOWS_BOOKMARKS_PATH: &'static str = "Google/Chrome/User Data/Default/Bookmarks";

pub const CACHE_MAIN_DIR: &'static str = "aan";

pub const CACHE_FILE_PATH: &'static str = "aan/Aan.json";

pub const CACHE_IMG_PATH: &'static str = "aan/images";

pub const DEFAULT_IMG_PATH: &'static str = "default.png";

pub const ASSETS_DIR_PATH: &'static str = "assets";

pub const LOADER_ICON_PATH: &'static str = "loader-icon.svg";

/// A base directory joined to a relative path with a single separator.
pub open spec fn spec_join(base: Seq<char>, rel: Seq<char>) -> Seq<char> {
    base + seq!['/'] + rel
}

/// Joins a base directory and a relative path with a separator.
pub fn join_path(base: &str, rel: &str) -> (r: String)
    ensures
        r@ == spec_join(base@, rel@),
{
    proof {
        reveal_strlit("/");
    }
    let mut s = base.to_owned();
    s.append("/");
    s.append(rel);
    proof {
        assert(s@ =~= spec_join(base@, rel@));
    }
    s
}

/// The directory holding cached preview images, under the given cache base.
pub fn get_full_img_cache_path(cache_dir: &str) -> (r: String)
    ensures
        r@ == spec_join(cache_dir@, CACHE_IMG_PATH@),
{
    join_path(cache_dir, CACHE_IMG_PATH)
}

/// The bundled fallback image shown when enrichment found no usable image.
pub fn get_default_image_path() -> (r: String)
    ensures
        r@ == spec_join(ASSETS_DIR_PATH@, DEFAULT_IMG_PATH@),
{
    join_path(ASSETS_DIR_PATH, DEFAULT_IMG_PATH)
}

/// The bundled loader icon.
pub fn get_loader_icon_path() -> (r: String)
    ensures
        r@ == spec_join(ASSETS_DIR_PATH@, LOADER_ICON_PATH@),
{
    join_path(ASSETS_DIR_PATH, LOADER_ICON_PATH)
}

/// The store file holding the persisted records, under the given cache base.
pub fn get_cache_file_path(cache_dir: &str) -> (r: String)
    ensures
        r@ == spec_join(cache_dir@, CACHE_FILE_PATH@),
{
    join_path(cache_dir, CACHE_FILE_PATH)
}


/// Where the browser keeps its bookmark export on this machine: under
/// the cache base on Windows, under the config base on Ubuntu-like
/// Linux. No other system is supported.
pub fn get_os_config_path(os: &str, config_dir: &str, cache_dir: &str) -> (r: String)
    requires
        os@ == "windows"@ || os@ == "linux"@,
    ensures
        os@ == "windows"@ ==> r@ == spec_join(cache_dir@, WINDOWS_BOOKMARKS_PATH@),
        os@ == "linux"@ ==> r@ == spec_join(config_dir@, LINUX_UBUNTU_BOOKMARKS_PATH@),
{
    proof {
        reveal_strlit("windows");
        reveal_strlit("linux");
    }
    if str_eq(os, "windows") {
        proof {
            assert(os@ == "windows"@);
            assert("windows"@.len() == 7);
            assert("linux"@.len() == 5);
            assert(os@ != "linux"@);
        }
        join_path(cache_dir, WINDOWS_BOOKMARKS_PATH)
    } else {
        proof {
            assert(os@ == "linux"@);
        }
        join_path(config_dir, LINUX_UBUNTU_BOOKMARKS_PATH)
    }
}

/// The bookmark export's full path, as `get_os_config_path` resolves it.
pub fn get_bookmarks_path(os: &str, config_dir: &str, cache_dir: &str) -> (r: String)
    requires
        os@ == "windows"@ || os@ == "linux"@,
    ensures
        os@ == "windows"@ ==> r@ == spec_join(cache_dir@, WINDOWS_BOOKMARKS_PATH@),
        os@ == "linux"@ ==> r@ == spec_join(config_dir@, LINUX_UBUNTU_BOOKMARKS_PATH@),
{
    get_os_config_path(os, config_dir, cache_dir)
}

} // verus!
