//! The checks around a clean install of the Zibo aircraft: which files
//! count as its settings, and whether a backup or a restore of liveries and
//! settings is complete, from what was measured on disk.

use vstd::prelude::*;
use crate::num::{dec, dec_vec};
use crate::text::{chars_of, ends_with, ends_with_exec, push_all, string_of};

verus! {

/// A settings file of the aircraft: its name matches `*_prefs.txt`.
pub open spec fn zibo_config_file(name: Seq<char>) -> bool {
    ends_with(name, "_prefs.txt"@)
}

pub fn is_zibo_config_file(name: &str) -> (r: bool)
    ensures
        r == zibo_config_file(name@),
{
    ends_with_exec(&chars_of(name), &chars_of("_prefs.txt"))
}

/// The liveries folder as copied: its file count and size before, and after
/// in the backup (`None` when the backup folder is missing).
#[derive(Debug, Clone, Copy)]
pub struct LiveriesBackupCheck {
    pub original_files: u64,
    pub original_bytes: u64,
    pub backup: Option<(u64, u64)>,
}

/// A settings file as copied: its size before, and the size of its copy
/// (`None` when the copy is missing).
#[derive(Debug, Clone)]
pub struct FileCopyCheck {
    pub file_name: String,
    pub original_size: u64,
    pub copy_size: Option<u64>,
}

pub open spec fn copy_views(v: Seq<FileCopyCheck>) -> Seq<(Seq<char>, u64, Option<u64>)> {
    v.map_values(|c: FileCopyCheck| (c.file_name@, c.original_size, c.copy_size))
}

pub open spec fn liveries_backup_error(l: LiveriesBackupCheck) -> Option<Seq<char>> {
    match l.backup {
        None => Some("Zibo liveries backup folder does not exist"@),
        Some((files, bytes)) => if files != l.original_files {
            Some(
                "Zibo liveries backup is incomplete: expected "@ + dec(l.original_files as nat)
                    + " files, got "@ + dec(files as nat),
            )
        } else if bytes != l.original_bytes {
            Some(
                "Zibo liveries backup size mismatch: expected "@ + dec(l.original_bytes as nat)
                    + " bytes, got "@ + dec(bytes as nat),
            )
        } else {
            None
        },
    }
}

/// The first settings copy that is missing or of another size, in order,
/// with the message for it (`restore` picks the wording of a restore).
pub open spec fn copies_error(v: Seq<(Seq<char>, u64, Option<u64>)>, restore: bool) -> Option<Seq<char>>
    decreases v.len(),
{
    if v.len() == 0 {
        None
    } else {
        let (name, size, copy) = v[0];
        match copy {
            None => Some(
                if restore {
                    "Restored config file '"@ + name + "' does not exist"@
                } else {
                    "Backup of '"@ + name + "' does not exist"@
                },
            ),
            Some(c) => if c != size {
                Some(
                    if restore {
                        "Restored config file '"@ + name + "' has the wrong size: expected "@ + dec(
                            size as nat,
                        ) + " bytes, got "@ + dec(c as nat)
                    } else {
                        "Backup size mismatch for '"@ + name + "': expected "@ + dec(size as nat)
                            + " bytes, got "@ + dec(c as nat)
                    },
                )
            } else {
                copies_error(v.drop_first(), restore)
            },
        }
    }
}

fn copies_check(copies: &Vec<FileCopyCheck>, restore: bool) -> (r: Result<(), String>)
    ensures
        match copies_error(copy_views(copies@), restore) {
            Some(e) => r matches Err(m) && m@ == e,
            None => r is Ok,
        },
{
    let ghost all = copy_views(copies@);
    let mut i: usize = 0;
    assert(all.subrange(0, all.len() as int) =~= all);
    while i < copies.len()
        invariant
            0 <= i <= copies@.len(),
            all == copy_views(copies@),
            copies_error(all, restore) == copies_error(all.subrange(i as int, all.len() as int), restore),
        decreases copies@.len() - i,
    {
        let ghost rest = all.subrange(i as int, all.len() as int);
        assert(rest[0] == (copies@[i as int].file_name@, copies@[i as int].original_size, copies@[i as int].copy_size));
        assert(rest.drop_first() =~= all.subrange(i + 1, all.len() as int));
        let c = &copies[i];
        let name = chars_of(c.file_name.as_str());
        match c.copy_size {
            None => {
                let mut m = if restore {
                    chars_of("Restored config file '")
                } else {
                    chars_of("Backup of '")
                };
                push_all(&mut m, &name);
                push_all(&mut m, &chars_of("' does not exist"));
                return Err(string_of(&m));
            },
            Some(size) => {
                if size != c.original_size {
                    let mut m = if restore {
                        chars_of("Restored config file '")
                    } else {
                        chars_of("Backup size mismatch for '")
                    };
                    push_all(&mut m, &name);
                    if restore {
                        push_all(&mut m, &chars_of("' has the wrong size: expected "));
                    } else {
                        push_all(&mut m, &chars_of("': expected "));
                    }
                    push_all(&mut m, &dec_vec(c.original_size));
                    push_all(&mut m, &chars_of(" bytes, got "));
                    push_all(&mut m, &dec_vec(size));
                    return Err(string_of(&m));
                }
            },
        }
        i = i + 1;
    }
    Ok(())
}

/// Whether a backup is complete: the liveries copy (when there is one)
/// exists with as many files and bytes as the original, then each settings
/// copy exists with its original's size; the first failure is the error.
pub fn check_zibo_backup(liveries: Option<LiveriesBackupCheck>, settings: &Vec<FileCopyCheck>) -> (r:
    Result<(), String>)
    ensures
        match liveries {
            Some(l) if liveries_backup_error(l) is Some => r matches Err(m) && m@ == liveries_backup_error(l)->0,
            _ => match copies_error(copy_views(settings@), false) {
                Some(e) => r matches Err(m) && m@ == e,
                None => r is Ok,
            },
        },
{
    match liveries {
        Some(l) => match l.backup {
            None => {
                return Err(string_of(&chars_of("Zibo liveries backup folder does not exist")));
            },
            Some((files, bytes)) => {
                if files != l.original_files {
                    let mut m = chars_of("Zibo liveries backup is incomplete: expected ");
                    push_all(&mut m, &dec_vec(l.original_files));
                    push_all(&mut m, &chars_of(" files, got "));
                    push_all(&mut m, &dec_vec(files));
                    return Err(string_of(&m));
                }
                if bytes != l.original_bytes {
                    let mut m = chars_of("Zibo liveries backup size mismatch: expected ");
                    push_all(&mut m, &dec_vec(l.original_bytes));
                    push_all(&mut m, &chars_of(" bytes, got "));
                    push_all(&mut m, &dec_vec(bytes));
                    return Err(string_of(&m));
                }
            },
        },
        None => {},
    }
    copies_check(settings, false)
}

/// Whether a restore is complete: each settings file is back with its
/// original size, then the liveries folder exists when liveries were kept;
/// the first failure is the error.
pub fn check_zibo_restore(settings: &Vec<FileCopyCheck>, liveries_kept: bool, liveries_present: bool) -> (r:
    Result<(), String>)
    ensures
        match copies_error(copy_views(settings@), true) {
            Some(e) => r matches Err(m) && m@ == e,
            None => if liveries_kept && !liveries_present {
                r matches Err(m) && m@ == "Restored Zibo liveries folder does not exist"@
            } else {
                r is Ok
            },
        },
{
    copies_check(settings, true)?;
    if liveries_kept && !liveries_present {
        return Err(string_of(&chars_of("Restored Zibo liveries folder does not exist")));
    }
    Ok(())
}

} // verus!
