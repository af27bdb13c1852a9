//! The errors the commands report, and their messages.
use vstd::prelude::*;

verus! {

#[derive(Debug)]
pub enum Error {
    /// The argument is not of the form `user/repo`.
    NotRepoFormat { arg: String },
    /// The repository is pinned, so it cannot be skipped.
    RepoPinned { repo: String },
    /// The repository's owner is not tracked, so skipping it means nothing.
    UserNotTracked { repo: String, user: String },
    /// The repository is skipped, so it cannot be pinned.
    RepoSkipped { repo: String },
}

/// The message each error is reported with.
pub open spec fn error_text(e: Error) -> Seq<char> {
    match e {
        Error::NotRepoFormat { arg } => "'"@ + arg@ + "' is not in user/repo format"@,
        Error::RepoPinned { repo } => "'"@ + repo@ + "' is currently pinned. Run 'gitkeep remove "@
            + repo@ + "' to stop tracking it instead."@,
        Error::UserNotTracked { repo, user } => "'"@ + repo@ + "' won't be synced: '"@ + user@
            + "' is not in your tracked list. Run 'gitkeep add "@ + user@ + "' first."@,
        Error::RepoSkipped { repo } => "'"@ + repo@ + "' is currently skipped. Run 'gitkeep unskip "@
            + repo@ + "' first."@,
    }
}

impl Error {
    /// The message the error is reported with.
    pub fn message(&self) -> (r: String)
        ensures
            r@ == error_text(*self),
    {
        let mut s = String::new();
        match self {
            Error::NotRepoFormat { arg } => {
                s.append("'");
                s.append(arg.as_str());
                s.append("' is not in user/repo format");
            },
            Error::RepoPinned { repo } => {
                s.append("'");
                s.append(repo.as_str());
                s.append("' is currently pinned. Run 'gitkeep remove ");
                s.append(repo.as_str());
                s.append("' to stop tracking it instead.");
            },
            Error::UserNotTracked { repo, user } => {
                s.append("'");
                s.append(repo.as_str());
                s.append("' won't be synced: '");
                s.append(user.as_str());
                s.append("' is not in your tracked list. Run 'gitkeep add ");
                s.append(user.as_str());
                s.append("' first.");
            },
            Error::RepoSkipped { repo } => {
                s.append("'");
                s.append(repo.as_str());
                s.append("' is currently skipped. Run 'gitkeep unskip ");
                s.append(repo.as_str());
                s.append("' first.");
            },
        }
        assert(s@ =~= error_text(*self));
        s
    }
}

} // verus!
