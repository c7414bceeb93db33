//! File modes as the ten characters that `ls -l` prints.

use vstd::prelude::*;
use vstd::string::StringExecFns;

verus! {

/// The bits of a mode that hold the file type.
pub const S_IFMT: u32 = 0o170000;

/// File type: socket.
pub const S_IFSOCK: u32 = 0o140000;

/// File type: symbolic link.
pub const S_IFLNK: u32 = 0o120000;

/// File type: block device.
pub const S_IFBLK: u32 = 0o060000;

/// File type: directory.
pub const S_IFDIR: u32 = 0o040000;

/// File type: character device.
pub const S_IFCHR: u32 = 0o020000;

/// File type: named pipe.
pub const S_IFIFO: u32 = 0o010000;

/// Set user id on execution.
pub const S_ISUID: u32 = 0o4000;

/// Set group id on execution.
pub const S_ISGID: u32 = 0o2000;

/// Sticky bit.
pub const S_ISVTX: u32 = 0o1000;

/// Read permission, owner.
pub const S_IRUSR: u32 = 0o400;

/// Write permission, owner.
pub const S_IWUSR: u32 = 0o200;

/// Execute permission, owner.
pub const S_IXUSR: u32 = 0o100;

/// Read permission, group.
pub const S_IRGRP: u32 = 0o040;

/// Write permission, group.
pub const S_IWGRP: u32 = 0o020;

/// Execute permission, group.
pub const S_IXGRP: u32 = 0o010;

/// Read permission, others.
pub const S_IROTH: u32 = 0o004;

/// Write permission, others.
pub const S_IWOTH: u32 = 0o002;

/// Execute permission, others.
pub const S_IXOTH: u32 = 0o001;

/// The character for the file type of mode `m`; `-` for a regular file and
/// for every type that has no letter.
pub open spec fn type_char(m: u32) -> char {
    let t = m & S_IFMT;
    if t == S_IFBLK {
        'b'
    } else if t == S_IFCHR {
        'c'
    } else if t == S_IFDIR {
        'd'
    } else if t == S_IFIFO {
        'p'
    } else if t == S_IFLNK {
        'l'
    } else if t == S_IFSOCK {
        's'
    } else {
        '-'
    }
}

/// `letter` where mode `m` has the bit `bit`, `-` where it has not.
pub open spec fn flag_char(m: u32, bit: u32, letter: char) -> char {
    if m & bit != 0 {
        letter
    } else {
        '-'
    }
}

/// The character in an execute position: `x` or `-` for the execute bit
/// `bit` alone, and `set` or `unset` in their place where mode `m` also has
/// the special bit `special`.
pub open spec fn execute_char(m: u32, bit: u32, special: u32, set: char, unset: char) -> char {
    if m & bit != 0 {
        if m & special != 0 {
            set
        } else {
            'x'
        }
    } else {
        if m & special != 0 {
            unset
        } else {
            '-'
        }
    }
}

/// The ten characters of mode `m`: the file type, then read, write and
/// execute for the owner, the group and the others.
pub open spec fn permission_chars(m: u32) -> Seq<char> {
    seq![
        type_char(m),
        flag_char(m, S_IRUSR, 'r'),
        flag_char(m, S_IWUSR, 'w'),
        execute_char(m, S_IXUSR, S_ISUID, 's', 'S'),
        flag_char(m, S_IRGRP, 'r'),
        flag_char(m, S_IWGRP, 'w'),
        execute_char(m, S_IXGRP, S_ISGID, 's', 'S'),
        flag_char(m, S_IROTH, 'r'),
        flag_char(m, S_IWOTH, 'w'),
        execute_char(m, S_IXOTH, S_ISVTX, 't', 'T'),
    ]
}

fn type_letter(m: u32) -> (c: &'static str)
    ensures
        c@ == seq![type_char(m)],
{
    proof {
        reveal_strlit("b");
        reveal_strlit("c");
        reveal_strlit("d");
        reveal_strlit("p");
        reveal_strlit("l");
        reveal_strlit("s");
        reveal_strlit("-");
    }
    let t: u32 = m & S_IFMT;
    let c = if t == S_IFBLK {
        "b"
    } else if t == S_IFCHR {
        "c"
    } else if t == S_IFDIR {
        "d"
    } else if t == S_IFIFO {
        "p"
    } else if t == S_IFLNK {
        "l"
    } else if t == S_IFSOCK {
        "s"
    } else {
        "-"
    };
    assert(c@ =~= seq![type_char(m)]);
    c
}

fn read_letter(m: u32, bit: u32) -> (c: &'static str)
    ensures
        c@ == seq![flag_char(m, bit, 'r')],
{
    proof {
        reveal_strlit("r");
        reveal_strlit("-");
    }
    let c = if m & bit != 0 {
        "r"
    } else {
        "-"
    };
    assert(c@ =~= seq![flag_char(m, bit, 'r')]);
    c
}

fn write_letter(m: u32, bit: u32) -> (c: &'static str)
    ensures
        c@ == seq![flag_char(m, bit, 'w')],
{
    proof {
        reveal_strlit("w");
        reveal_strlit("-");
    }
    let c = if m & bit != 0 {
        "w"
    } else {
        "-"
    };
    assert(c@ =~= seq![flag_char(m, bit, 'w')]);
    c
}

fn execute_letter(m: u32, bit: u32, special: u32) -> (c: &'static str)
    ensures
        c@ == seq![execute_char(m, bit, special, 's', 'S')],
{
    proof {
        reveal_strlit("s");
        reveal_strlit("x");
        reveal_strlit("S");
        reveal_strlit("-");
    }
    let c = if m & bit != 0 {
        if m & special != 0 {
            "s"
        } else {
            "x"
        }
    } else {
        if m & special != 0 {
            "S"
        } else {
            "-"
        }
    };
    assert(c@ =~= seq![execute_char(m, bit, special, 's', 'S')]);
    c
}

fn sticky_letter(m: u32) -> (c: &'static str)
    ensures
        c@ == seq![execute_char(m, S_IXOTH, S_ISVTX, 't', 'T')],
{
    proof {
        reveal_strlit("t");
        reveal_strlit("x");
        reveal_strlit("T");
        reveal_strlit("-");
    }
    let c = if m & S_IXOTH != 0 {
        if m & S_ISVTX != 0 {
            "t"
        } else {
            "x"
        }
    } else {
        if m & S_ISVTX != 0 {
            "T"
        } else {
            "-"
        }
    };
    assert(c@ =~= seq![execute_char(m, S_IXOTH, S_ISVTX, 't', 'T')]);
    c
}

/// The mode `m` as text, such as `drwxr-xr-x`.
pub fn permissions(m: u32) -> (s: String)
    ensures
        s@ == permission_chars(m),
{
    let mut s = String::new();
    // File type
    s.append(type_letter(m));
    // Owner
    s.append(read_letter(m, S_IRUSR));
    s.append(write_letter(m, S_IWUSR));
    s.append(execute_letter(m, S_IXUSR, S_ISUID));
    // Group
    s.append(read_letter(m, S_IRGRP));
    s.append(write_letter(m, S_IWGRP));
    s.append(execute_letter(m, S_IXGRP, S_ISGID));
    // Other
    s.append(read_letter(m, S_IROTH));
    s.append(write_letter(m, S_IWOTH));
    s.append(sticky_letter(m));
    assert(s@ =~= permission_chars(m));
    s
}

} // verus!
