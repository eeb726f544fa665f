//! What can go wrong in a command, and the message that says so.
use vstd::prelude::*;
use vstd::string::*;

verus! {

/// The ways in which a command fails.
#[derive(Debug, Clone, Copy, PartialEq, Eq, Structural)]
pub enum Reason {
    /// The scheme of a path ends inside a character.
    UnreadablePath,
    /// A destination names a browser but no folder.
    NoDestination,
    /// The node to be changed is not an object.
    NotAnObject,
    ProfileNotFound,
    SourceProfileNotFound,
    DestProfileNotFound,
    NoProfiles,
    PathNotFound,
    GetRoot,
    BookmarkNotFound,
    NotALink,
    MakeAtRoot,
    MakeUnderBrowser,
    MakeInHistory,
    ParentNotFound,
    ParentNotFolder,
    EmptyTarget,
    RootTarget,
    RootNotFound,
    SegmentNotFolder,
    ChildNotFound,
    NoChildren,
    TargetNotFound,
    DeleteRootCategory,
    NoTrash,
    TrashNotFolder,
    DeleteFromRoot,
    HistoryReadOnly,
    DeleteBrowserRoot,
    DeleteHistory,
    MoveRoot,
    CopyRoot,
    DestinationRoot,
    MoveHistory,
    MoveIntoHistory,
    CopyIntoHistory,
    SourceNotFound,
    DestRootNotFound,
    DestNotFolder,
    DestChildNotFound,
    DestNoChildren,
    RenameRoot,
    RenameToNothing,
    RenameHistory,
    ExportNoProfile,
    NoRoots,
    CheckNoProfile,
    CheckTargetNotFound,
    /// The folders of a Firefox store contain one another.
    CyclicFolders,
    BadJson,
    Usage,
    UnknownCommand,
}

impl Reason {
    /// How the message begins.
    pub open spec fn opening(self) -> Seq<char> {
        match self {
            Reason::UnreadablePath => "Unreadable path: "@,
            Reason::NoDestination => "Destination names no folder"@,
            Reason::NotAnObject => "Bookmark node is not an object: "@,
            Reason::ProfileNotFound => "Browser profile '"@,
            Reason::SourceProfileNotFound => "Source browser profile '"@,
            Reason::DestProfileNotFound => "Destination browser profile '"@,
            Reason::NoProfiles => "No browser bookmarks found (Brave, Chrome, Edge). Please specify your path in auxbookmark.ini."@,
            Reason::PathNotFound => "Path not found: "@,
            Reason::GetRoot => "Cannot get root or browser node: "@,
            Reason::BookmarkNotFound => "Target bookmark not found: "@,
            Reason::NotALink => "Node is not a URL item: "@,
            Reason::MakeAtRoot => "Cannot create folder at root or browser root directly: "@,
            Reason::MakeUnderBrowser => "Cannot create folder directly under browser root: "@,
            Reason::MakeInHistory => "Cannot create folder inside History folder: "@,
            Reason::ParentNotFound => "Parent folder not found: "@,
            Reason::ParentNotFolder => "Target parent is not a folder"@,
            Reason::EmptyTarget => "Target path cannot be empty"@,
            Reason::RootTarget => "Cannot modify root folder directly: "@,
            Reason::RootNotFound => "Root segment not found: "@,
            Reason::SegmentNotFolder => "Path segment is not a folder: "@,
            Reason::ChildNotFound => "Child folder not found: "@,
            Reason::NoChildren => "Parent node has no children array"@,
            Reason::TargetNotFound => "Target item not found: "@,
            Reason::DeleteRootCategory => "Cannot delete root bookmark categories: "@,
            Reason::NoTrash => "Failed to locate Trash folder"@,
            Reason::TrashNotFolder => "Trash node has no children"@,
            Reason::DeleteFromRoot => "Cannot delete from root: "@,
            Reason::HistoryReadOnly => "History folder is read-only. Use copy ('C') to save to bookmarks."@,
            Reason::DeleteBrowserRoot => "Cannot delete browser root folder: "@,
            Reason::DeleteHistory => "Cannot delete History folder: "@,
            Reason::MoveRoot => "Cannot move browser root items: "@,
            Reason::CopyRoot => "Cannot copy browser root items: "@,
            Reason::DestinationRoot => "Destination cannot be root: "@,
            Reason::MoveHistory => "History items cannot be moved. Use copy ('C') instead: "@,
            Reason::MoveIntoHistory => "Cannot move into History folder (History is read-only): "@,
            Reason::CopyIntoHistory => "Cannot copy into History folder (History is read-only): "@,
            Reason::SourceNotFound => "Source node not found: "@,
            Reason::DestRootNotFound => "Destination root not found: "@,
            Reason::DestNotFolder => "Destination segment is not a folder: "@,
            Reason::DestChildNotFound => "Destination child not found: "@,
            Reason::DestNoChildren => "Destination node is not a folder"@,
            Reason::RenameRoot => "Cannot rename browser root or root category folders: "@,
            Reason::RenameToNothing => "Destination cannot be empty: "@,
            Reason::RenameHistory => "History items cannot be renamed (History is read-only): "@,
            Reason::ExportNoProfile => "No browser profile specified or found for export."@,
            Reason::NoRoots => "Invalid Bookmarks: missing 'roots'"@,
            Reason::CheckNoProfile => "No browser profile specified for link check."@,
            Reason::CheckTargetNotFound => "Target path not found: "@,
            Reason::CyclicFolders => "Bookmark folders contain one another"@,
            Reason::BadJson => "Failed to parse Bookmarks JSON: "@,
            Reason::Usage => "Usage: auxbookmark "@,
            Reason::UnknownCommand => "Unknown command: "@,
        }
    }

    /// The message goes on with what the failure is about.
    pub open spec fn has_detail(self) -> bool {
        match self {
            Reason::NoDestination
            | Reason::NoProfiles
            | Reason::ParentNotFolder
            | Reason::EmptyTarget
            | Reason::NoChildren
            | Reason::NoTrash
            | Reason::TrashNotFolder
            | Reason::HistoryReadOnly
            | Reason::DestNoChildren
            | Reason::ExportNoProfile
            | Reason::NoRoots
            | Reason::CheckNoProfile
            | Reason::CyclicFolders => false,
            _ => true,
        }
    }

    /// How the message ends.
    pub open spec fn closing(self) -> Seq<char> {
        match self {
            Reason::ProfileNotFound
            | Reason::SourceProfileNotFound
            | Reason::DestProfileNotFound => "' not found"@,
            _ => ""@,
        }
    }

    /// How the message begins.
    fn opening_text(&self) -> (r: &'static str)
        ensures
            r@ == self.opening(),
    {
        match self {
            Reason::UnreadablePath => "Unreadable path: ",
            Reason::NoDestination => "Destination names no folder",
            Reason::NotAnObject => "Bookmark node is not an object: ",
            Reason::ProfileNotFound => "Browser profile '",
            Reason::SourceProfileNotFound => "Source browser profile '",
            Reason::DestProfileNotFound => "Destination browser profile '",
            Reason::NoProfiles => "No browser bookmarks found (Brave, Chrome, Edge). Please specify your path in auxbookmark.ini.",
            Reason::PathNotFound => "Path not found: ",
            Reason::GetRoot => "Cannot get root or browser node: ",
            Reason::BookmarkNotFound => "Target bookmark not found: ",
            Reason::NotALink => "Node is not a URL item: ",
            Reason::MakeAtRoot => "Cannot create folder at root or browser root directly: ",
            Reason::MakeUnderBrowser => "Cannot create folder directly under browser root: ",
            Reason::MakeInHistory => "Cannot create folder inside History folder: ",
            Reason::ParentNotFound => "Parent folder not found: ",
            Reason::ParentNotFolder => "Target parent is not a folder",
            Reason::EmptyTarget => "Target path cannot be empty",
            Reason::RootTarget => "Cannot modify root folder directly: ",
            Reason::RootNotFound => "Root segment not found: ",
            Reason::SegmentNotFolder => "Path segment is not a folder: ",
            Reason::ChildNotFound => "Child folder not found: ",
            Reason::NoChildren => "Parent node has no children array",
            Reason::TargetNotFound => "Target item not found: ",
            Reason::DeleteRootCategory => "Cannot delete root bookmark categories: ",
            Reason::NoTrash => "Failed to locate Trash folder",
            Reason::TrashNotFolder => "Trash node has no children",
            Reason::DeleteFromRoot => "Cannot delete from root: ",
            Reason::HistoryReadOnly => "History folder is read-only. Use copy ('C') to save to bookmarks.",
            Reason::DeleteBrowserRoot => "Cannot delete browser root folder: ",
            Reason::DeleteHistory => "Cannot delete History folder: ",
            Reason::MoveRoot => "Cannot move browser root items: ",
            Reason::CopyRoot => "Cannot copy browser root items: ",
            Reason::DestinationRoot => "Destination cannot be root: ",
            Reason::MoveHistory => "History items cannot be moved. Use copy ('C') instead: ",
            Reason::MoveIntoHistory => "Cannot move into History folder (History is read-only): ",
            Reason::CopyIntoHistory => "Cannot copy into History folder (History is read-only): ",
            Reason::SourceNotFound => "Source node not found: ",
            Reason::DestRootNotFound => "Destination root not found: ",
            Reason::DestNotFolder => "Destination segment is not a folder: ",
            Reason::DestChildNotFound => "Destination child not found: ",
            Reason::DestNoChildren => "Destination node is not a folder",
            Reason::RenameRoot => "Cannot rename browser root or root category folders: ",
            Reason::RenameToNothing => "Destination cannot be empty: ",
            Reason::RenameHistory => "History items cannot be renamed (History is read-only): ",
            Reason::ExportNoProfile => "No browser profile specified or found for export.",
            Reason::NoRoots => "Invalid Bookmarks: missing 'roots'",
            Reason::CheckNoProfile => "No browser profile specified for link check.",
            Reason::CheckTargetNotFound => "Target path not found: ",
            Reason::CyclicFolders => "Bookmark folders contain one another",
            Reason::BadJson => "Failed to parse Bookmarks JSON: ",
            Reason::Usage => "Usage: auxbookmark ",
            Reason::UnknownCommand => "Unknown command: ",
        }
    }
}

/// The mathematical model of a failure: why, and about what.
pub struct Fault {
    pub reason: Reason,
    pub detail: Seq<char>,
}

impl Fault {
    /// The message of a failure.
    pub open spec fn message(self) -> Seq<char> {
        if self.reason.has_detail() {
            self.reason.opening() + self.detail + self.reason.closing()
        } else {
            self.reason.opening()
        }
    }
}

/// A failure of a command.
#[derive(Debug)]
pub struct CommandError {
    pub reason: Reason,
    pub detail: String,
}

impl View for CommandError {
    type V = Fault;

    open spec fn view(&self) -> Fault {
        Fault { reason: self.reason, detail: self.detail@ }
    }
}

impl CommandError {
    /// A failure about a text.
    pub fn new(reason: Reason, detail: &str) -> (r: CommandError)
        ensures
            r@ == (Fault { reason, detail: detail@ }),
    {
        CommandError { reason, detail: detail.to_owned() }
    }

    /// The message of a failure.
    pub fn message(&self) -> (r: String)
        ensures
            r@ == self@.message(),
    {
        let mut out: String = self.reason.opening_text().to_owned();
        match self.reason {
            Reason::NoDestination
            | Reason::NoProfiles
            | Reason::ParentNotFolder
            | Reason::EmptyTarget
            | Reason::NoChildren
            | Reason::NoTrash
            | Reason::TrashNotFolder
            | Reason::HistoryReadOnly
            | Reason::DestNoChildren
            | Reason::ExportNoProfile
            | Reason::NoRoots
            | Reason::CheckNoProfile
            | Reason::CyclicFolders => {},
            Reason::ProfileNotFound
            | Reason::SourceProfileNotFound
            | Reason::DestProfileNotFound => {
                out.append(self.detail.as_str());
                out.append("' not found");
            },
            _ => {
                out.append(self.detail.as_str());
                proof {
                    reveal_strlit("");
                    assert(out@ + ""@ =~= out@);
                }
            },
        }
        out
    }
}

/// A message tells what the failure is about: where it goes on with a detail, different details
/// give different messages, and the detail stands in the message unaltered; else the detail does
/// not matter.
pub proof fn law_message_tells_its_detail(reason: Reason, a: Seq<char>, b: Seq<char>)
    ensures
        ({
            let x = (Fault { reason, detail: a }).message();
            let y = (Fault { reason, detail: b }).message();
            &&& reason.has_detail() ==> (x == y <==> a == b)
            &&& !reason.has_detail() ==> x == y
            &&& reason.has_detail() ==> x == reason.opening() + a + reason.closing()
        }),
{
    let x = (Fault { reason, detail: a }).message();
    let y = (Fault { reason, detail: b }).message();
    if reason.has_detail() {
        let k = reason.opening().len() as int;
        let m = reason.closing().len() as int;
        assert(x =~= reason.opening() + a + reason.closing());
        assert(x.subrange(k, x.len() - m) =~= a);
        assert(y.subrange(k, y.len() - m) =~= b);
    }
}

} // verus!
