//! The command line: which devices a listing holds, which device a command
//! names, and what the tool does for each form of invocation.
use crate::change::{change_of, has_sign, number_of, parse_change, parse_number, Change, ParseError};
use crate::device::{device_of, name_view, Device, DeviceView};
use vstd::prelude::*;

verus! {

/// One entry of the backlight directory, as far as it was read: its path,
/// the final component of that path, whether it is a directory and the text
/// of its two files (`None` where a file could not be read).
pub struct DeviceEntry {
    pub path: String,
    pub name: Option<String>,
    pub is_dir: bool,
    pub max_text: Option<String>,
    pub current_text: Option<String>,
}

/// The device that an entry makes, if it makes one: only a directory whose
/// two files were read and hold a well-formed device.
pub open spec fn entry_device(e: DeviceEntry) -> Option<DeviceView> {
    if !e.is_dir {
        None
    } else {
        match (e.max_text, e.current_text) {
            (Some(m), Some(c)) => match device_of(e.path@, name_view(e.name), m@, c@) {
                Ok(v) => Some(v),
                Err(_) => None,
            },
            _ => None,
        }
    }
}

/// The devices that a listing makes, in its order; entries that make no
/// device are left out.
pub open spec fn devices_of(es: Seq<DeviceEntry>) -> Seq<DeviceView>
    decreases es.len(),
{
    if es.len() == 0 {
        Seq::empty()
    } else {
        devices_of(es.drop_last()) + match entry_device(es.last()) {
            Some(v) => seq![v],
            None => Seq::empty(),
        }
    }
}

proof fn lemma_devices_of_concat(a: Seq<DeviceEntry>, b: Seq<DeviceEntry>)
    ensures
        devices_of(a + b) == devices_of(a) + devices_of(b),
    decreases b.len(),
{
    if b.len() == 0 {
        assert(a + b =~= a);
        assert(devices_of(a) + devices_of(b) =~= devices_of(a));
    } else {
        assert((a + b).drop_last() =~= a + b.drop_last());
        assert((a + b).last() == b.last());
        lemma_devices_of_concat(a, b.drop_last());
        assert(devices_of(a + b) =~= devices_of(a) + devices_of(b));
    }
}

proof fn lemma_no_dirs_no_devices(es: Seq<DeviceEntry>)
    requires
        forall|j: int| 0 <= j < es.len() ==> !(#[trigger] es[j]).is_dir,
    ensures
        devices_of(es).len() == 0,
    decreases es.len(),
{
    if es.len() > 0 {
        assert(!es[es.len() - 1].is_dir);
        lemma_no_dirs_no_devices(es.drop_last());
    }
}

/// A listing whose only directory is one well-formed device makes exactly
/// that one device, whatever other entries it holds.
pub proof fn lemma_single_device_dir(es: Seq<DeviceEntry>, k: int)
    requires
        0 <= k < es.len(),
        entry_device(es[k]) is Some,
        forall|j: int| 0 <= j < es.len() && j != k ==> !(#[trigger] es[j]).is_dir,
    ensures
        devices_of(es) == seq![entry_device(es[k])->Some_0],
{
    let pre = es.subrange(0, k);
    let post = es.subrange(k + 1, es.len() as int);
    assert(es =~= pre + seq![es[k]] + post);
    assert forall|j: int| 0 <= j < pre.len() implies !(#[trigger] pre[j]).is_dir by {
        assert(pre[j] == es[j]);
    }
    assert forall|j: int| 0 <= j < post.len() implies !(#[trigger] post[j]).is_dir by {
        assert(post[j] == es[k + 1 + j]);
    }
    lemma_no_dirs_no_devices(pre);
    lemma_no_dirs_no_devices(post);
    lemma_devices_of_concat(pre + seq![es[k]], post);
    lemma_devices_of_concat(pre, seq![es[k]]);
    let one = seq![es[k]];
    assert(one.drop_last() =~= Seq::<DeviceEntry>::empty());
    assert(devices_of(one.drop_last()) =~= Seq::<DeviceView>::empty());
    assert(one.last() == es[k]);
    assert(devices_of(one) =~= seq![entry_device(es[k])->Some_0]);
    assert(devices_of(es) =~= seq![entry_device(es[k])->Some_0]);
}

pub open spec fn views(ds: Seq<Device>) -> Seq<DeviceView> {
    ds.map_values(|d: Device| d@)
}

pub open spec fn all_wf(ds: Seq<Device>) -> bool {
    forall|i: int| 0 <= i < ds.len() ==> (#[trigger] ds[i]).wf()
}

/// Reads every entry of a listing as a device. An entry that is no
/// directory, or whose files are missing or malformed, is skipped: one broken
/// device does not hide the others.
pub fn collect_devices(entries: &Vec<DeviceEntry>) -> (r: Vec<Device>)
    ensures
        views(r@) == devices_of(entries@),
        all_wf(r@),
{
    let mut out: Vec<Device> = Vec::new();
    let mut i: usize = 0;
    while i < entries.len()
        invariant
            i <= entries@.len(),
            views(out@) == devices_of(entries@.subrange(0, i as int)),
            all_wf(out@),
        decreases entries@.len() - i,
    {
        let e = &entries[i];
        let ghost before = out@;
        assert(entries@.subrange(0, i + 1).drop_last() =~= entries@.subrange(0, i as int));
        if e.is_dir {
            match (&e.max_text, &e.current_text) {
                (Some(m), Some(c)) => {
                    let name = match &e.name {
                        Some(n) => Some(n.clone()),
                        None => None,
                    };
                    match Device::from_contents(e.path.clone(), name, m.as_str(), c.as_str()) {
                        Ok(d) => {
                            out.push(d);
                            assert(views(out@) =~= views(before) + seq![d@]);
                        },
                        Err(_) => {},
                    }
                },
                _ => {},
            }
        }
        assert(views(out@) =~= devices_of(entries@.subrange(0, i + 1)));
        i = i + 1;
    }
    assert(entries@.subrange(0, i as int) =~= entries@);
    out
}

/// Index of the first name in `names` that `wanted` holds of.
pub open spec fn first_index(names: Seq<Seq<char>>, wanted: spec_fn(Seq<char>) -> bool) -> Option<nat>
    decreases names.len(),
{
    if names.len() == 0 {
        None
    } else {
        match first_index(names.drop_last(), wanted) {
            Some(k) => Some(k),
            None => if wanted(names.last()) {
                Some((names.len() - 1) as nat)
            } else {
                None
            },
        }
    }
}

pub open spec fn index_view(r: Option<usize>) -> Option<nat> {
    match r {
        Some(i) => Some(i as nat),
        None => None,
    }
}

pub open spec fn names_of(ds: Seq<Device>) -> Seq<Seq<char>> {
    ds.map_values(|d: Device| d@.name)
}

proof fn lemma_first_index_extends(names: Seq<Seq<char>>, wanted: spec_fn(Seq<char>) -> bool, i: int)
    requires
        0 <= i <= names.len(),
        first_index(names.subrange(0, i), wanted) is Some,
    ensures
        first_index(names, wanted) == first_index(names.subrange(0, i), wanted),
    decreases names.len(),
{
    if i < names.len() {
        assert(names.drop_last().subrange(0, i) =~= names.subrange(0, i));
        lemma_first_index_extends(names.drop_last(), wanted, i);
    } else {
        assert(names.subrange(0, i) =~= names);
    }
}

/// The device named exactly `name`.
pub open spec fn named(name: Seq<char>) -> spec_fn(Seq<char>) -> bool {
    |n: Seq<char>| n == name
}

/// A device named by one of `defaults`.
pub open spec fn one_of(defaults: Seq<String>) -> spec_fn(Seq<char>) -> bool {
    |n: Seq<char>| exists|k: int| 0 <= k < defaults.len() && (#[trigger] defaults[k])@ == n
}

/// Index of the first device called `name`, or `None` when no device is.
pub fn find_device(devices: &Vec<Device>, name: &String) -> (r: Option<usize>)
    ensures
        index_view(r) == first_index(names_of(devices@), named(name@)),
        r matches Some(i) ==> i < devices@.len(),
{
    let ghost names = names_of(devices@);
    let mut i: usize = 0;
    while i < devices.len()
        invariant
            i <= devices@.len(),
            names == names_of(devices@),
            first_index(names.subrange(0, i as int), named(name@)) is None,
        decreases devices@.len() - i,
    {
        assert(names.subrange(0, i + 1).drop_last() =~= names.subrange(0, i as int));
        assert(names[i as int] == devices@[i as int]@.name);
        if *devices[i].name() == *name {
            proof {
                assert(named(name@)(names[i as int]));
                lemma_first_index_extends(names, named(name@), i + 1);
            }
            return Some(i);
        }
        i = i + 1;
    }
    assert(names.subrange(0, i as int) =~= names);
    None
}

fn is_default(name: &String, defaults: &Vec<String>) -> (r: bool)
    ensures
        r == one_of(defaults@)(name@),
{
    let mut k: usize = 0;
    while k < defaults.len()
        invariant
            k <= defaults@.len(),
            forall|j: int| 0 <= j < k ==> (#[trigger] defaults@[j])@ != name@,
        decreases defaults@.len() - k,
    {
        if defaults[k] == *name {
            assert(defaults@[k as int]@ == name@);
            return true;
        }
        k = k + 1;
    }
    false
}

/// Index of the first device whose name is one of `defaults`, or `None`
/// when there is none.
pub fn default_device(devices: &Vec<Device>, defaults: &Vec<String>) -> (r: Option<usize>)
    ensures
        index_view(r) == first_index(names_of(devices@), one_of(defaults@)),
        r matches Some(i) ==> i < devices@.len(),
{
    let ghost names = names_of(devices@);
    let mut i: usize = 0;
    while i < devices.len()
        invariant
            i <= devices@.len(),
            names == names_of(devices@),
            first_index(names.subrange(0, i as int), one_of(defaults@)) is None,
        decreases devices@.len() - i,
    {
        assert(names.subrange(0, i + 1).drop_last() =~= names.subrange(0, i as int));
        assert(names[i as int] == devices@[i as int]@.name);
        if is_default(devices[i].name(), defaults) {
            proof {
                lemma_first_index_extends(names, one_of(defaults@), i + 1);
            }
            return Some(i);
        }
        i = i + 1;
    }
    assert(names.subrange(0, i as int) =~= names);
    None
}

proof fn lemma_first_index_none(names: Seq<Seq<char>>, wanted: spec_fn(Seq<char>) -> bool)
    requires
        forall|j: int| 0 <= j < names.len() ==> !wanted(#[trigger] names[j]),
    ensures
        first_index(names, wanted) is None,
    decreases names.len(),
{
    if names.len() > 0 {
        assert(!wanted(names[names.len() - 1]));
        lemma_first_index_none(names.drop_last(), wanted);
    }
}

/// A change aimed at a device name that no device has does nothing and is
/// no error, whatever the change token says.
pub proof fn lemma_missing_device_does_nothing(devices: Seq<Device>, name: String, change: String, defaults: Seq<String>)
    requires
        forall|j: int| 0 <= j < devices.len() ==> (#[trigger] devices[j])@.name != name@,
    ensures
        action_of(Command::Apply { device: Some(name), change }, names_of(devices), defaults) == Ok::<Action, ParseError>(Action::Nothing),
        action_of(Command::Show(name), names_of(devices), defaults) == Ok::<Action, ParseError>(Action::Nothing),
{
    let names = names_of(devices);
    assert forall|j: int| 0 <= j < names.len() implies !named(name@)(#[trigger] names[j]) by {
        assert(names[j] == devices[j]@.name);
    }
    lemma_first_index_none(names, named(name@));
}

/// What the arguments ask for.
#[derive(Debug, PartialEq, Eq)]
pub enum Command {
    /// Print the usage text.
    Usage,
    /// Show every device.
    List,
    /// Show the device of this name.
    Show(String),
    /// Apply a change token to the named device, or to the default device.
    Apply { device: Option<String>, change: String },
}

/// What the tool does once the devices are known.
#[derive(Debug, Clone, Copy, PartialEq, Eq, Structural)]
pub enum Action {
    Usage,
    List,
    /// Show the device at this index.
    Show(usize),
    /// Apply the change to the device at this index, write it and show it.
    Update(usize, Change),
    /// The device asked for is not there: nothing to do, and no error.
    Nothing,
}

pub open spec fn is_help(s: Seq<char>) -> bool {
    s == seq!['-', 'h'] || s == seq!['-', '-', 'h', 'e', 'l', 'p']
}

/// A lone argument that reads as a change rather than a device name.
pub open spec fn is_change_token(s: Seq<char>) -> bool {
    has_sign(s) || number_of(s) is Some
}

pub open spec fn asks_help(args: Seq<String>) -> bool {
    exists|i: int| 0 <= i < args.len() && is_help((#[trigger] args[i])@)
}

fn is_help_arg(s: &String) -> (r: bool)
    ensures
        r == is_help(s@),
{
    let t = s.as_str();
    let n = t.unicode_len();
    if n == 2 {
        let r = t.get_char(0) == '-' && t.get_char(1) == 'h';
        assert(r ==> t@ =~= seq!['-', 'h']);
        r
    } else if n == 6 {
        let r = t.get_char(0) == '-' && t.get_char(1) == '-' && t.get_char(2) == 'h'
            && t.get_char(3) == 'e' && t.get_char(4) == 'l' && t.get_char(5) == 'p';
        assert(r ==> t@ =~= seq!['-', '-', 'h', 'e', 'l', 'p']);
        r
    } else {
        false
    }
}

/// Reads the arguments that follow the program name. `-h` or `--help`
/// anywhere asks for the usage text; otherwise no argument lists the
/// devices, one argument is a change for the default device when it reads as
/// one and a device name to show when not, two are a device name and a
/// change, and more ask for the usage text.
pub fn plan(args: &Vec<String>) -> (r: Command)
    ensures
        asks_help(args@) ==> r is Usage,
        !asks_help(args@) ==> {
            &&& args@.len() == 0 ==> r is List
            &&& args@.len() == 1 && is_change_token(args@[0]@) ==> (r matches Command::Apply { device: None, change } && change@ == args@[0]@)
            &&& args@.len() == 1 && !is_change_token(args@[0]@) ==> (r matches Command::Show(n) && n@ == args@[0]@)
            &&& args@.len() == 2 ==> (r matches Command::Apply { device: Some(d), change } && d@ == args@[0]@ && change@ == args@[1]@)
            &&& args@.len() > 2 ==> r is Usage
        },
{
    let mut i: usize = 0;
    while i < args.len()
        invariant
            i <= args@.len(),
            forall|j: int| 0 <= j < i ==> !is_help((#[trigger] args@[j])@),
        decreases args@.len() - i,
    {
        if is_help_arg(&args[i]) {
            return Command::Usage;
        }
        i = i + 1;
    }
    if args.len() == 0 {
        Command::List
    } else if args.len() == 1 {
        let a = args[0].clone();
        let t = a.as_str();
        let signed = t.unicode_len() > 0 && (t.get_char(0) == '+' || t.get_char(0) == '-');
        if signed || parse_number(t).is_ok() {
            Command::Apply { device: None, change: a }
        } else {
            Command::Show(a)
        }
    } else if args.len() == 2 {
        Command::Apply { device: Some(args[0].clone()), change: args[1].clone() }
    } else {
        Command::Usage
    }
}

/// The index that a first match gives, or none.
pub open spec fn shown(target: Option<nat>) -> Action {
    match target {
        Some(i) => Action::Show(i as usize),
        None => Action::Nothing,
    }
}

/// What a command comes to on a set of devices. A device that is not there
/// is no error: the tool then does nothing. The change token is read only
/// once the device is found.
pub open spec fn action_of(command: Command, names: Seq<Seq<char>>, defaults: Seq<String>) -> Result<Action, ParseError> {
    match command {
        Command::Usage => Ok(Action::Usage),
        Command::List => Ok(Action::List),
        Command::Show(n) => Ok(shown(first_index(names, named(n@)))),
        Command::Apply { device, change } => {
            let target = match device {
                Some(d) => first_index(names, named(d@)),
                None => first_index(names, one_of(defaults)),
            };
            match target {
                None => Ok(Action::Nothing),
                Some(i) => match change_of(change@) {
                    Some(c) => Ok(Action::Update(i as usize, c)),
                    None => Err(ParseError),
                },
            }
        },
    }
}

/// Decides what to do for `command`, with `defaults` the names, in order of
/// preference, of the device that a change without a device name goes to.
pub fn decide(command: &Command, devices: &Vec<Device>, defaults: &Vec<String>) -> (r: Result<Action, ParseError>)
    ensures
        r == action_of(*command, names_of(devices@), defaults@),
        r matches Ok(Action::Show(i)) ==> i < devices@.len(),
        r matches Ok(Action::Update(i, c)) ==> i < devices@.len() && c.wf(),
{
    match command {
        Command::Usage => Ok(Action::Usage),
        Command::List => Ok(Action::List),
        Command::Show(n) => match find_device(devices, n) {
            Some(i) => Ok(Action::Show(i)),
            None => Ok(Action::Nothing),
        },
        Command::Apply { device, change } => {
            let target = match device {
                Some(d) => find_device(devices, d),
                None => default_device(devices, defaults),
            };
            match target {
                None => Ok(Action::Nothing),
                Some(i) => match parse_change(change.as_str()) {
                    Ok(c) => Ok(Action::Update(i, c)),
                    Err(e) => Err(e),
                },
            }
        },
    }
}

} // verus!
