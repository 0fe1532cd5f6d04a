use vstd::prelude::*;
use crate::paths::{into_path, is_plain_path, join, joined, normalize, normalized_path, unix_separators};
use crate::variables::{resolved, ResolveError, ResolveFailure, VariablesContext};

verus! {

/// Most locations a manifest may declare: their ids are one byte.
pub const MAX_LOCATIONS: usize = 256;

/// What a location is.
#[derive(PartialEq, Eq, Structural, Clone, Copy, Debug)]
pub enum LocationKind {
    /// A directory on disk.
    Folder,
    /// An archive read as a namespace of files.
    ReadArchive,
    /// An archive to be built from the files inserted into it.
    WriteArchive,
}

/// A location of the installer manifest: its kind, its name, and its path,
/// which may hold `%NAME%` markers until it is resolved.
pub struct Location {
    pub kind: LocationKind,
    pub name: String,
    pub value: String,
}

/// A file: a location id and a path inside that location.
pub struct FullLocation {
    pub location: u8,
    pub path: String,
}

/// A file whose path may be left out, to be taken from another file.
pub struct MaybeFullLocation {
    pub location: u8,
    pub path: Option<String>,
}

/// Why the locations of a manifest could not be resolved.
pub enum LocationError {
    /// More locations than one-byte ids can name.
    TooManyLocations,
    /// The location at this position holds a marker that did not resolve.
    Resolve(usize, ResolveError),
}

/// Why an asset cannot be routed.
#[derive(PartialEq, Eq, Structural, Clone, Copy, Debug)]
pub enum DispatchError {
    /// No location has this id.
    NoLocation(u8),
    /// A write archive is no source to read from.
    CannotReadFromWriteArchive,
    /// A read archive is no target to write into.
    CannotWriteIntoReadArchive,
}

/// Where the bytes of a source come from.
pub enum ReadPlan {
    /// A file on disk, at this path.
    File(String),
    /// An entry of an archive on disk.
    FromArchive { archive: String, inner: String },
}

/// Where the bytes for a target go.
pub enum WritePlan {
    /// A file on disk, at this path.
    File(String),
    /// An entry of the archive to be built at `archive`.
    Queue { archive: String, inner: String },
}

impl MaybeFullLocation {
    /// The file this names, taking the path of `source` when it has none.
    pub fn lookup_from_both_source_and_target(self, source: &FullLocation) -> (r: FullLocation)
        ensures
            r.location == self.location,
            r.path@ == match self.path {
                Some(p) => p@,
                None => source.path@,
            },
    {
        match self.path {
            Some(path) => FullLocation { location: self.location, path },
            None => FullLocation { location: self.location, path: source.path.clone() },
        }
    }
}

/// `locations` with each value resolved, when all of them resolve.
pub open spec fn all_resolve(ctx: crate::variables::ContextView, locations: Seq<Location>) -> bool {
    forall|i: int| 0 <= i < locations.len() ==> (#[trigger] resolved(ctx, locations[i].value@)) is Ok
}

/// Resolves the markers in the path of every location; the position of each
/// is its id.
pub fn resolve_locations(locations: &Vec<Location>, ctx: &VariablesContext) -> (r: Result<
    Vec<Location>,
    LocationError,
>)
    ensures
        match r {
            Ok(out) => {
                &&& locations@.len() <= MAX_LOCATIONS
                &&& out@.len() == locations@.len()
                &&& forall|i: int|
                    0 <= i < out@.len() ==> {
                        &&& #[trigger] out@[i].kind == locations@[i].kind
                        &&& out@[i].name@ == locations@[i].name@
                        &&& resolved(ctx@, locations@[i].value@) == Ok::<Seq<char>, ResolveFailure>(
                            out@[i].value@,
                        )
                    }
            },
            Err(LocationError::TooManyLocations) => locations@.len() > MAX_LOCATIONS,
            Err(LocationError::Resolve(i, e)) => {
                &&& locations@.len() <= MAX_LOCATIONS
                &&& i < locations@.len()
                &&& resolved(ctx@, locations@[i as int].value@) == Err::<Seq<char>, ResolveFailure>(e@)
                &&& forall|j: int| 0 <= j < i ==> (#[trigger] resolved(ctx@, locations@[j].value@)) is Ok
            },
        },
        r is Ok <==> (locations@.len() <= MAX_LOCATIONS && all_resolve(ctx@, locations@)),
{
    if locations.len() > MAX_LOCATIONS {
        return Err(LocationError::TooManyLocations);
    }
    let mut out: Vec<Location> = Vec::new();
    let mut i: usize = 0;
    while i < locations.len()
        invariant
            i <= locations@.len(),
            locations@.len() <= MAX_LOCATIONS,
            out@.len() == i,
            forall|j: int|
                0 <= j < i ==> {
                    &&& #[trigger] out@[j].kind == locations@[j].kind
                    &&& out@[j].name@ == locations@[j].name@
                    &&& resolved(ctx@, locations@[j].value@) == Ok::<Seq<char>, ResolveFailure>(out@[j].value@)
                },
        decreases locations.len() - i,
    {
        let location = &locations[i];
        match ctx.resolve_variable(location.value.as_str()) {
            Ok(value) => {
                out.push(Location { kind: location.kind, name: location.name.clone(), value });
            },
            Err(e) => {
                proof {
                    assert forall|j: int| 0 <= j < i implies (#[trigger] resolved(ctx@, locations@[j].value@)) is Ok by {
                        assert(out@[j].kind == locations@[j].kind);
                    }
                }
                return Err(LocationError::Resolve(i, e));
            },
        }
        i = i + 1;
    }
    proof {
        assert forall|j: int| 0 <= j < locations@.len() implies (#[trigger] resolved(ctx@, locations@[j].value@)) is Ok by {
            assert(out@[j].kind == locations@[j].kind);
        }
    }
    Ok(out)
}

/// `inner` appended to the folder `root`, before normalizing.
pub open spec fn folder_join(root: Seq<char>, inner: Seq<char>) -> Seq<char> {
    joined(unix_separators(root), unix_separators(inner))
}

/// The file on disk that `inner` names inside the folder `root`.
pub open spec fn folder_file(root: Seq<char>, inner: Seq<char>) -> Seq<char> {
    normalized_path(folder_join(root, inner))
}

/// How the source `at` is read, given the resolved `locations`.
pub fn read_plan(locations: &Vec<Location>, at: &FullLocation) -> (r: Result<ReadPlan, DispatchError>)
    ensures
        at.location as int >= locations@.len() ==> r == Err::<ReadPlan, DispatchError>(
            DispatchError::NoLocation(at.location),
        ),
        (at.location as int) < locations@.len() ==> match locations@[at.location as int].kind {
            LocationKind::Folder => r matches Ok(ReadPlan::File(p)) && p@ == folder_file(
                locations@[at.location as int].value@,
                at.path@,
            ) && (is_plain_path(folder_join(locations@[at.location as int].value@, at.path@)) ==> p@
                == folder_join(locations@[at.location as int].value@, at.path@)),
            LocationKind::ReadArchive => r matches Ok(ReadPlan::FromArchive { archive, inner }) && archive@
                == normalized_path(unix_separators(locations@[at.location as int].value@)) && inner@
                == unix_separators(at.path@),
            LocationKind::WriteArchive => r == Err::<ReadPlan, DispatchError>(
                DispatchError::CannotReadFromWriteArchive,
            ),
        },
{
    let id = at.location as usize;
    if id >= locations.len() {
        return Err(DispatchError::NoLocation(at.location));
    }
    let location = &locations[id];
    match location.kind {
        LocationKind::Folder => {
            let root = into_path(location.value.as_str());
            let inner = into_path(at.path.as_str());
            let full = join(root.as_str(), inner.as_str());
            Ok(ReadPlan::File(normalize(full.as_str())))
        },
        LocationKind::ReadArchive => {
            let archive = into_path(location.value.as_str());
            Ok(ReadPlan::FromArchive { archive: normalize(archive.as_str()), inner: into_path(at.path.as_str()) })
        },
        LocationKind::WriteArchive => Err(DispatchError::CannotReadFromWriteArchive),
    }
}

/// How the target `at` is written, given the resolved `locations`.
pub fn write_plan(locations: &Vec<Location>, at: &FullLocation) -> (r: Result<WritePlan, DispatchError>)
    ensures
        at.location as int >= locations@.len() ==> r == Err::<WritePlan, DispatchError>(
            DispatchError::NoLocation(at.location),
        ),
        (at.location as int) < locations@.len() ==> match locations@[at.location as int].kind {
            LocationKind::Folder => r matches Ok(WritePlan::File(p)) && p@ == folder_file(
                locations@[at.location as int].value@,
                at.path@,
            ) && (is_plain_path(folder_join(locations@[at.location as int].value@, at.path@)) ==> p@
                == folder_join(locations@[at.location as int].value@, at.path@)),
            LocationKind::WriteArchive => r matches Ok(WritePlan::Queue { archive, inner }) && archive@
                == normalized_path(unix_separators(locations@[at.location as int].value@)) && inner@ == normalized_path(
                unix_separators(at.path@),
            ),
            LocationKind::ReadArchive => r == Err::<WritePlan, DispatchError>(
                DispatchError::CannotWriteIntoReadArchive,
            ),
        },
{
    let id = at.location as usize;
    if id >= locations.len() {
        return Err(DispatchError::NoLocation(at.location));
    }
    let location = &locations[id];
    match location.kind {
        LocationKind::Folder => {
            let root = into_path(location.value.as_str());
            let inner = into_path(at.path.as_str());
            let full = join(root.as_str(), inner.as_str());
            Ok(WritePlan::File(normalize(full.as_str())))
        },
        LocationKind::WriteArchive => {
            let inner = into_path(at.path.as_str());
            let archive = into_path(location.value.as_str());
            Ok(WritePlan::Queue { archive: normalize(archive.as_str()), inner: normalize(inner.as_str()) })
        },
        LocationKind::ReadArchive => Err(DispatchError::CannotWriteIntoReadArchive),
    }
}

} // verus!
