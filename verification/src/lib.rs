//! Installing missing or broken Windows DLL files from a DLL download site:
//! the command line (`cli`), the choice of files to install and restore
//! (`installer`), the reading of the site's pages (`scraper`), the tool's
//! error kinds (`error`), and the character-level string operations they
//! rest on (`text`).

use vstd::prelude::*;

pub mod cli;
pub mod error;
pub mod installer;
pub mod scraper;
pub mod text;

verus! {

} // verus!
