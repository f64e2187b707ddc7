//! Names for temporary files.

use vstd::prelude::*;
use vstd::string::StringExecFns;

verus! {

/// The most names that are tried for one file before giving up.
pub const MAX_TRIES: usize = 999;

/// Hands out names for the temporary files of one directory.
///
/// The names are `tmp00000001.dat`, `tmp00000002.dat` and so on, with the
/// number in hexadecimal. A name may be taken already: the caller creates the
/// file only if none of that name exists, and asks for another name if one does.
#[derive(Clone, Debug)]
pub struct TmpDir {
    dir: String,
    n: usize,
    tries: usize,
}

/// The hexadecimal digit of a number below 16.
pub open spec fn hex_char(d: int) -> char {
    if d == 0 {
        '0'
    } else if d == 1 {
        '1'
    } else if d == 2 {
        '2'
    } else if d == 3 {
        '3'
    } else if d == 4 {
        '4'
    } else if d == 5 {
        '5'
    } else if d == 6 {
        '6'
    } else if d == 7 {
        '7'
    } else if d == 8 {
        '8'
    } else if d == 9 {
        '9'
    } else if d == 10 {
        'a'
    } else if d == 11 {
        'b'
    } else if d == 12 {
        'c'
    } else if d == 13 {
        'd'
    } else if d == 14 {
        'e'
    } else {
        'f'
    }
}

/// A number in hexadecimal, with zeros in front up to `width` digits.
pub open spec fn hex(n: nat, width: nat) -> Seq<char>
    decreases n, width,
{
    if n < 16 && width <= 1 {
        seq![hex_char(n as int)]
    } else if n < 16 {
        hex(n, (width - 1) as nat).insert(0, '0')
    } else {
        hex(n / 16, if width > 0 {
            (width - 1) as nat
        } else {
            0
        }).push(hex_char((n % 16) as int))
    }
}

/// The name of the temporary file with the given number.
pub open spec fn tmp_name(n: nat) -> Seq<char> {
    "tmp"@ + hex(n, 8) + ".dat"@
}

fn hex_digit(d: usize) -> (s: &'static str)
    requires
        d < 16,
    ensures
        s@ == seq![hex_char(d as int)],
{
    proof {
        reveal_strlit("0");
        reveal_strlit("1");
        reveal_strlit("2");
        reveal_strlit("3");
        reveal_strlit("4");
        reveal_strlit("5");
        reveal_strlit("6");
        reveal_strlit("7");
        reveal_strlit("8");
        reveal_strlit("9");
        reveal_strlit("a");
        reveal_strlit("b");
        reveal_strlit("c");
        reveal_strlit("d");
        reveal_strlit("e");
        reveal_strlit("f");
    }
    let s = if d == 0 {
        "0"
    } else if d == 1 {
        "1"
    } else if d == 2 {
        "2"
    } else if d == 3 {
        "3"
    } else if d == 4 {
        "4"
    } else if d == 5 {
        "5"
    } else if d == 6 {
        "6"
    } else if d == 7 {
        "7"
    } else if d == 8 {
        "8"
    } else if d == 9 {
        "9"
    } else if d == 10 {
        "a"
    } else if d == 11 {
        "b"
    } else if d == 12 {
        "c"
    } else if d == 13 {
        "d"
    } else if d == 14 {
        "e"
    } else {
        "f"
    };
    assert(s@ =~= seq![hex_char(d as int)]);
    s
}

/// Appends `n` in hexadecimal, with zeros in front up to `width` digits.
fn push_hex(name: &mut String, n: usize, width: usize)
    ensures
        final(name)@ == old(name)@ + hex(n as nat, width as nat),
    decreases n, width,
{
    if n < 16 && width <= 1 {
        name.append(hex_digit(n));
    } else if n < 16 {
        name.append(hex_digit(0));
        push_hex(name, n, width - 1);
        assert(name@ =~= old(name)@ + hex(n as nat, (width - 1) as nat).insert(0, '0'));
    } else {
        push_hex(name, n / 16, if width > 0 {
            width - 1
        } else {
            0
        });
        name.append(hex_digit(n % 16));
        assert(name@ =~= old(name)@ + hex(n as nat, width as nat));
    }
}

/// The name of the temporary file with the given number.
pub fn file_name(n: usize) -> (name: String)
    ensures
        name@ == tmp_name(n as nat),
{
    let mut name = String::new();
    name.append("tmp");
    push_hex(&mut name, n, 8);
    name.append(".dat");
    assert(name@ =~= tmp_name(n as nat));
    name
}

impl TmpDir {
    /// The directory for which the names are made.
    pub closed spec fn spec_dir(self) -> Seq<char> {
        self.dir@
    }

    /// The number of the next name.
    pub closed spec fn spec_count(self) -> nat {
        self.n as nat
    }

    /// The number of names tried for the file that is being created.
    pub closed spec fn spec_tries(self) -> nat {
        self.tries as nat
    }

    /// A source of names for the given directory. The first name has the number 1.
    pub fn new(dir: &str) -> (tmp_dir: TmpDir)
        ensures
            tmp_dir.spec_dir() == dir@,
            tmp_dir.spec_count() == 1,
            tmp_dir.spec_tries() == 0,
    {
        TmpDir { dir: dir.to_owned(), n: 1, tries: 0 }
    }

    /// The directory for which the names are made.
    pub fn dir(&self) -> (dir: &str)
        ensures
            dir@ == self.spec_dir(),
    {
        self.dir.as_str()
    }

    /// The number of the next name.
    pub fn count(&self) -> (n: usize)
        ensures
            n == self.spec_count(),
    {
        self.n
    }

    /// Begins the creation of a temporary file: gives the first name to try.
    ///
    /// The caller creates the file of that name in the directory, unless one
    /// exists already, and tells `retry` if that failed.
    pub fn create(&mut self) -> (name: String)
        requires
            old(self).spec_count() < usize::MAX,
        ensures
            name@ == tmp_name(old(self).spec_count()),
            final(self).spec_count() == old(self).spec_count() + 1,
            final(self).spec_tries() == 1,
            final(self).spec_dir() == old(self).spec_dir(),
    {
        let name = file_name(self.n);
        self.n += 1;
        self.tries = 1;
        name
    }

    /// Says what to do after a name could not be had: `Some` with the next
    /// name to try where a file of that name exists already and fewer than
    /// 999 names were tried, `None` to give up with the error at hand.
    pub fn retry(&mut self, already_exists: bool) -> (name: Option<String>)
        requires
            old(self).spec_count() < usize::MAX,
        ensures
            final(self).spec_dir() == old(self).spec_dir(),
            already_exists && old(self).spec_tries() < MAX_TRIES ==> {
                &&& name matches Some(s)
                &&& s@ == tmp_name(old(self).spec_count())
                &&& final(self).spec_count() == old(self).spec_count() + 1
                &&& final(self).spec_tries() == old(self).spec_tries() + 1
            },
            !(already_exists && old(self).spec_tries() < MAX_TRIES) ==> {
                &&& name is None
                &&& final(self).spec_count() == old(self).spec_count()
                &&& final(self).spec_tries() == old(self).spec_tries()
            },
    {
        if self.tries < MAX_TRIES && already_exists {
            let name = file_name(self.n);
            self.n += 1;
            self.tries += 1;
            Some(name)
        } else {
            None
        }
    }
}

} // verus!
