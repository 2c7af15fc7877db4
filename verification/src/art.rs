use vstd::prelude::*;

use crate::strings::has_prefix;

verus! {

/// One artwork of the art index: its name, where it came from, where it is
/// stored, and whether it is a splash.
#[derive(Debug)]
pub struct Art {
    pub name: String,
    pub url: String,
    pub path: String,
    pub splash: bool,
}

/// The art index: everything lives under one `arts` directory, listed by an
/// `index.json` file there. Reading the listing is the caller's; the paths
/// are this type's.
#[derive(Debug)]
pub struct Api {
    data_dir_path: String,
}

impl Api {
    pub closed spec fn spec_dir(self) -> Seq<char> {
        self.data_dir_path@
    }

    /// The art store under a data directory: its `arts` subdirectory. The
    /// caller creates the directory itself.
    pub fn new(data_dir_path: &str) -> (r: Api)
        ensures
            r.spec_dir() == data_dir_path@ + "/arts"@,
    {
        let mut p = String::from_str(data_dir_path);
        p.append("/arts");
        Api { data_dir_path: p }
    }

    /// Where the index file sits.
    pub fn list_file_path(&self) -> (r: String)
        ensures
            r@ == self.spec_dir() + "/index.json"@,
    {
        let mut p = self.data_dir_path.clone();
        p.append("/index.json");
        p
    }

    /// An index entry's path resolved against the store: an absolute path
    /// stands as it is, a relative one is taken from the store directory.
    pub fn resolve_art_path(&self, path: &str) -> (r: String)
        ensures
            r@ == if has_prefix(path@, "/"@) {
                path@
            } else {
                self.spec_dir() + "/"@ + path@
            },
    {
        if crate::strings::str_starts_with(path, "/") {
            String::from_str(path)
        } else {
            let mut p = self.data_dir_path.clone();
            p.append("/");
            p.append(path);
            p
        }
    }
}

} // verus!
