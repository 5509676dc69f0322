//! The fixed file and directory names the cleanup touches, and the
//! derivation of each path from an install or library root.

use vstd::prelude::*;

verus! {

/// A path joined from a base and one further component.
pub open spec fn joined(base: Seq<char>, name: Seq<char>) -> Seq<char> {
    base + seq!['/'] + name
}

pub open spec fn steamapps_name() -> Seq<char> {
    seq!['s', 't', 'e', 'a', 'm', 'a', 'p', 'p', 's']
}

pub open spec fn workshop_name() -> Seq<char> {
    seq!['w', 'o', 'r', 'k', 's', 'h', 'o', 'p']
}

pub open spec fn config_dir_name() -> Seq<char> {
    seq!['c', 'o', 'n', 'f', 'i', 'g']
}

pub open spec fn login_cache_name() -> Seq<char> {
    seq!['l', 'o', 'g', 'i', 'n', 'u', 's', 'e', 'r', 's', '.', 'v', 'd', 'f']
}

pub open spec fn userdata_name() -> Seq<char> {
    seq!['u', 's', 'e', 'r', 'd', 'a', 't', 'a']
}

pub open spec fn library_config_name() -> Seq<char> {
    seq![
        'l',
        'i',
        'b',
        'r',
        'a',
        'r',
        'y',
        'f',
        'o',
        'l',
        'd',
        'e',
        'r',
        's',
        '.',
        'v',
        'd',
        'f',
    ]
}

/// A root's workshop cache directory: `<root>/steamapps/workshop`.
pub open spec fn workshop_cache(root: Seq<char>) -> Seq<char> {
    joined(joined(root, steamapps_name()), workshop_name())
}

/// Joins a base path and one further component with a separator.
pub fn join_path(base: &Vec<char>, name: &Vec<char>) -> (r: Vec<char>)
    ensures
        r@ == joined(base@, name@),
{
    let mut out: Vec<char> = Vec::new();
    let mut i: usize = 0;
    while i < base.len()
        invariant
            i <= base.len(),
            out@ =~= base@.subrange(0, i as int),
        decreases base.len() - i,
    {
        out.push(base[i]);
        i += 1;
    }
    out.push('/');
    let mut k: usize = 0;
    while k < name.len()
        invariant
            k <= name.len(),
            out@ =~= base@ + seq!['/'] + name@.subrange(0, k as int),
        decreases name.len() - k,
    {
        out.push(name[k]);
        k += 1;
    }
    proof {
        assert(out@ =~= joined(base@, name@));
    }
    out
}

fn steamapps_vec() -> (r: Vec<char>)
    ensures
        r@ == steamapps_name(),
{
    let mut v: Vec<char> = Vec::new();
    v.push('s');
    v.push('t');
    v.push('e');
    v.push('a');
    v.push('m');
    v.push('a');
    v.push('p');
    v.push('p');
    v.push('s');
    proof {
        assert(v@ =~= steamapps_name());
    }
    v
}

fn workshop_vec() -> (r: Vec<char>)
    ensures
        r@ == workshop_name(),
{
    let mut v: Vec<char> = Vec::new();
    v.push('w');
    v.push('o');
    v.push('r');
    v.push('k');
    v.push('s');
    v.push('h');
    v.push('o');
    v.push('p');
    proof {
        assert(v@ =~= workshop_name());
    }
    v
}

fn config_dir_vec() -> (r: Vec<char>)
    ensures
        r@ == config_dir_name(),
{
    let mut v: Vec<char> = Vec::new();
    v.push('c');
    v.push('o');
    v.push('n');
    v.push('f');
    v.push('i');
    v.push('g');
    proof {
        assert(v@ =~= config_dir_name());
    }
    v
}

fn login_cache_vec() -> (r: Vec<char>)
    ensures
        r@ == login_cache_name(),
{
    let mut v: Vec<char> = Vec::new();
    v.push('l');
    v.push('o');
    v.push('g');
    v.push('i');
    v.push('n');
    v.push('u');
    v.push('s');
    v.push('e');
    v.push('r');
    v.push('s');
    v.push('.');
    v.push('v');
    v.push('d');
    v.push('f');
    proof {
        assert(v@ =~= login_cache_name());
    }
    v
}

fn userdata_vec() -> (r: Vec<char>)
    ensures
        r@ == userdata_name(),
{
    let mut v: Vec<char> = Vec::new();
    v.push('u');
    v.push('s');
    v.push('e');
    v.push('r');
    v.push('d');
    v.push('a');
    v.push('t');
    v.push('a');
    proof {
        assert(v@ =~= userdata_name());
    }
    v
}

fn library_config_vec() -> (r: Vec<char>)
    ensures
        r@ == library_config_name(),
{
    let mut v: Vec<char> = Vec::new();
    v.push('l');
    v.push('i');
    v.push('b');
    v.push('r');
    v.push('a');
    v.push('r');
    v.push('y');
    v.push('f');
    v.push('o');
    v.push('l');
    v.push('d');
    v.push('e');
    v.push('r');
    v.push('s');
    v.push('.');
    v.push('v');
    v.push('d');
    v.push('f');
    proof {
        assert(v@ =~= library_config_name());
    }
    v
}

/// `<root>/steamapps/workshop`, the cache this cleanup purges.
pub fn workshop_cache_path(root: &Vec<char>) -> (r: Vec<char>)
    ensures
        r@ == workshop_cache(root@),
{
    let first = join_path(root, &steamapps_vec());
    join_path(&first, &workshop_vec())
}

/// `<install>/config/loginusers.vdf`, the per-user login cache file.
pub fn login_cache_path(install: &Vec<char>) -> (r: Vec<char>)
    ensures
        r@ == joined(joined(install@, config_dir_name()), login_cache_name()),
{
    let first = join_path(install, &config_dir_vec());
    join_path(&first, &login_cache_vec())
}

/// `<install>/userdata`, the per-user state directory.
pub fn userdata_path(install: &Vec<char>) -> (r: Vec<char>)
    ensures
        r@ == joined(install@, userdata_name()),
{
    join_path(install, &userdata_vec())
}

/// `<install>/steamapps/libraryfolders.vdf`, the library-folders
/// configuration file.
pub fn library_config_path(install: &Vec<char>) -> (r: Vec<char>)
    ensures
        r@ == joined(joined(install@, steamapps_name()), library_config_name()),
{
    let first = join_path(install, &steamapps_vec());
    join_path(&first, &library_config_vec())
}

} // verus!
