//! In-memory models of the shell-hook commands and of the pin table.
use vstd::prelude::*;
use crate::error::EditError;
use crate::text::{same_text, splice, splice_exec};

verus! {

/// A named command of the shell hook.
#[derive(Debug, Clone, PartialEq)]
pub struct ShellHookEntry {
    pub name: String,
    pub script: String,
}

/// The commands of a shell hook, and where the hook stands in its file.
#[derive(Debug, Clone, PartialEq)]
pub struct ShellHookSection {
    pub entries: Vec<ShellHookEntry>,
    pub indentation: String,
    pub section_start: usize,
    pub section_end: usize,
}

/// A package pinned under an alias.
#[derive(Debug, Clone)]
pub struct PinnedPackage {
    pub name: String,
    pub pin_name: String,
}

/// A pin: a name and the packages pinned under it.
#[derive(Debug, Clone)]
pub struct OverlayEntry {
    pub name: String,
    pub packages: Vec<PinnedPackage>,
}

/// A source: a pin name and the reference it resolves to.
#[derive(Debug, Clone)]
pub struct SourceEntry {
    pub name: String,
    pub reference: String,
}

/// The pins of a pin table.
#[derive(Debug, Clone)]
pub struct OverlaysSection {
    pub entries: Vec<OverlayEntry>,
    pub indentation: String,
}

/// The sources of a pin table.
#[derive(Debug, Clone)]
pub struct SourcesSection {
    pub entries: Vec<SourceEntry>,
    pub indentation: String,
}

impl ShellHookSection {
    /// The names of the commands.
    pub open spec fn names(&self) -> Seq<Seq<char>> {
        self.entries@.map_values(|e: ShellHookEntry| e.name@)
    }

    /// Whether a command is called `name`.
    pub fn command_exists(&self, name: &str) -> (r: bool)
        ensures
            r == self.names().contains(name@),
    {
        let mut i: usize = 0;
        while i < self.entries.len()
            invariant
                i <= self.entries.len(),
                forall|j: int| 0 <= j < i ==> self.names()[j] != name@,
            decreases self.entries.len() - i,
        {
            if same_text(self.entries[i].name.as_str(), name) {
                assert(self.names()[i as int] == name@);
                return true;
            }
            i = i + 1;
        }
        false
    }

    /// Everything but the entries is the same in both.
    pub open spec fn same_frame(&self, other: &Self) -> bool {
        &&& self.indentation == other.indentation
        &&& self.section_start == other.section_start
        &&& self.section_end == other.section_end
    }

    /// Adds the command `name` with its script at the end.  Fails with
    /// `Duplicate` when a command is already called `name`.
    pub fn add_command(&mut self, name: &str, script: &str) -> (r: Result<(), EditError>)
        ensures
            old(self).names().contains(name@) ==> {
                &&& r == Err::<(), EditError>(EditError::Duplicate)
                &&& *final(self) == *old(self)
            },
            !old(self).names().contains(name@) ==> {
                &&& r is Ok
                &&& final(self).entries@.len() == old(self).entries@.len() + 1
                &&& final(self).entries@.drop_last() == old(self).entries@
                &&& final(self).entries@.last().name@ == name@
                &&& final(self).entries@.last().script@ == script@
                &&& final(self).same_frame(old(self))
            },
    {
        if self.command_exists(name) {
            return Err(EditError::Duplicate);
        }
        self.entries.push(ShellHookEntry { name: String::from_str(name), script: String::from_str(script) });
        assert(self.entries@.drop_last() =~= old(self).entries@);
        Ok(())
    }

    /// Removes every command called `name`.  Fails with `NotFound` when
    /// there is none.
    pub fn remove_command(&mut self, name: &str) -> (r: Result<(), EditError>)
        ensures
            !old(self).names().contains(name@) ==> {
                &&& r == Err::<(), EditError>(EditError::NotFound)
                &&& *final(self) == *old(self)
            },
            old(self).names().contains(name@) ==> {
                &&& r is Ok
                &&& final(self).entries@ == old(self).entries@.filter(|e: ShellHookEntry| e.name@ != name@)
                &&& final(self).same_frame(old(self))
            },
    {
        if !self.command_exists(name) {
            return Err(EditError::NotFound);
        }
        let ghost pred = |e: ShellHookEntry| e.name@ != name@;
        let ghost orig = self.entries@;
        let mut i: usize = 0;
        let ghost mut j: int = 0;
        while i < self.entries.len()
            invariant
                0 <= i <= j <= orig.len(),
                i <= self.entries.len(),
                self.entries@.len() - i == orig.len() - j,
                self.entries@.subrange(0, i as int) == orig.subrange(0, j).filter(pred),
                self.entries@.subrange(i as int, self.entries@.len() as int) == orig.subrange(j, orig.len() as int),
                self.indentation == old(self).indentation,
                self.section_start == old(self).section_start,
                self.section_end == old(self).section_end,
                pred == (|e: ShellHookEntry| e.name@ != name@),
            decreases self.entries.len() - i,
        {
            let ghost before = self.entries@;
            assert(orig[j] == before[i as int]) by {
                assert(before.subrange(i as int, before.len() as int)[0] == before[i as int]);
            }
            assert(orig.subrange(0, j + 1).drop_last() =~= orig.subrange(0, j));
            proof {
                reveal(Seq::filter);
            }
            if same_text(self.entries[i].name.as_str(), name) {
                self.entries.remove(i);
                assert(self.entries@.subrange(0, i as int) =~= before.subrange(0, i as int));
                assert forall|k: int| 0 <= k < self.entries@.len() - i implies #[trigger] self.entries@.subrange(i as int, self.entries@.len() as int)[k]
                    == orig.subrange(j + 1, orig.len() as int)[k] by {
                    assert(self.entries@[i + k] == before[i + k + 1]);
                    assert(before.subrange(i as int, before.len() as int)[k + 1] == orig.subrange(j, orig.len() as int)[k + 1]);
                }
                assert(self.entries@ == before.remove(i as int));
                assert(self.entries@.len() == before.len() - 1);
                assert(self.entries@.len() - i == orig.len() - (j + 1));
                assert(self.entries@.subrange(i as int, self.entries@.len() as int) =~= orig.subrange(j + 1, orig.len() as int));
            } else {
                assert(self.entries@.subrange(0, i + 1) =~= before.subrange(0, i as int).push(before[i as int]));
                assert forall|k: int| 0 <= k < self.entries@.len() - i - 1 implies #[trigger] self.entries@.subrange(i + 1, self.entries@.len() as int)[k]
                    == orig.subrange(j + 1, orig.len() as int)[k] by {
                    assert(before.subrange(i as int, before.len() as int)[k + 1] == orig.subrange(j, orig.len() as int)[k + 1]);
                }
                assert(self.entries@.subrange(i + 1, self.entries@.len() as int) =~= orig.subrange(j + 1, orig.len() as int));
                i = i + 1;
            }
            proof {
                j = j + 1;
            }
        }
        assert(self.entries@ =~= self.entries@.subrange(0, i as int));
        assert(orig.subrange(0, j) =~= orig);
        Ok(())
    }

    /// `original_content` with the hook's span replaced by `rendered_section`.
    pub fn apply_to_content(&self, original_content: &str, rendered_section: &str) -> (r: String)
        requires
            self.section_start <= self.section_end <= original_content@.len(),
        ensures
            r@ == splice(original_content@, self.section_start as int, self.section_end as int, rendered_section@),
    {
        splice_exec(original_content, self.section_start, self.section_end, rendered_section)
    }
}

impl SourcesSection {
    /// The names of the sources.
    pub open spec fn names(&self) -> Seq<Seq<char>> {
        self.entries@.map_values(|e: SourceEntry| e.name@)
    }

    /// Whether a source is called `source_name`.
    pub fn source_exists(&self, source_name: &str) -> (r: bool)
        ensures
            r == self.names().contains(source_name@),
    {
        let mut i: usize = 0;
        while i < self.entries.len()
            invariant
                i <= self.entries.len(),
                forall|j: int| 0 <= j < i ==> self.names()[j] != source_name@,
            decreases self.entries.len() - i,
        {
            if same_text(self.entries[i].name.as_str(), source_name) {
                assert(self.names()[i as int] == source_name@);
                return true;
            }
            i = i + 1;
        }
        false
    }

    /// Adds the source `source_name = source_ref` at the end.  Fails with
    /// `Duplicate` when a source is already called `source_name`.
    pub fn add_source(&mut self, source_name: &str, source_ref: &str) -> (r: Result<(), EditError>)
        ensures
            old(self).names().contains(source_name@) ==> {
                &&& r == Err::<(), EditError>(EditError::Duplicate)
                &&& final(self).entries@ == old(self).entries@
            },
            !old(self).names().contains(source_name@) ==> {
                &&& r is Ok
                &&& final(self).entries@.len() == old(self).entries@.len() + 1
                &&& final(self).entries@.drop_last() == old(self).entries@
                &&& final(self).entries@.last().name@ == source_name@
                &&& final(self).entries@.last().reference@ == source_ref@
            },
            final(self).indentation == old(self).indentation,
    {
        if self.source_exists(source_name) {
            return Err(EditError::Duplicate);
        }
        self.entries.push(SourceEntry { name: String::from_str(source_name), reference: String::from_str(source_ref) });
        assert(self.entries@.drop_last() =~= old(self).entries@);
        Ok(())
    }

    /// Removes every source called `source_name`.  Fails with `NotFound`
    /// when there is none.
    pub fn remove_source(&mut self, source_name: &str) -> (r: Result<(), EditError>)
        ensures
            !old(self).names().contains(source_name@) ==> {
                &&& r == Err::<(), EditError>(EditError::NotFound)
                &&& final(self).entries@ == old(self).entries@
            },
            old(self).names().contains(source_name@) ==> {
                &&& r is Ok
                &&& final(self).entries@ == old(self).entries@.filter(|e: SourceEntry| e.name@ != source_name@)
            },
            final(self).indentation == old(self).indentation,
    {
        let name = source_name;
        if !self.source_exists(name) {
            return Err(EditError::NotFound);
        }
        let ghost pred = |e: SourceEntry| e.name@ != name@;
        let ghost orig = self.entries@;
        let mut i: usize = 0;
        let ghost mut j: int = 0;
        while i < self.entries.len()
            invariant
                0 <= i <= j <= orig.len(),
                i <= self.entries.len(),
                self.entries@.len() - i == orig.len() - j,
                self.entries@.subrange(0, i as int) == orig.subrange(0, j).filter(pred),
                self.entries@.subrange(i as int, self.entries@.len() as int) == orig.subrange(j, orig.len() as int),
                pred == (|e: SourceEntry| e.name@ != name@),
                self.indentation == old(self).indentation,
            decreases self.entries.len() - i,
        {
            let ghost before = self.entries@;
            assert(orig[j] == before[i as int]) by {
                assert(before.subrange(i as int, before.len() as int)[0] == before[i as int]);
            }
            assert(orig.subrange(0, j + 1).drop_last() =~= orig.subrange(0, j));
            proof {
                reveal(Seq::filter);
            }
            if same_text(self.entries[i].name.as_str(), name) {
                self.entries.remove(i);
                assert(self.entries@.subrange(0, i as int) =~= before.subrange(0, i as int));
                assert forall|k: int| 0 <= k < self.entries@.len() - i implies #[trigger] self.entries@.subrange(i as int, self.entries@.len() as int)[k]
                    == orig.subrange(j + 1, orig.len() as int)[k] by {
                    assert(self.entries@[i + k] == before[i + k + 1]);
                    assert(before.subrange(i as int, before.len() as int)[k + 1] == orig.subrange(j, orig.len() as int)[k + 1]);
                }
                assert(self.entries@ == before.remove(i as int));
                assert(self.entries@.len() == before.len() - 1);
                assert(self.entries@.len() - i == orig.len() - (j + 1));
                assert(self.entries@.subrange(i as int, self.entries@.len() as int) =~= orig.subrange(j + 1, orig.len() as int));
            } else {
                assert(self.entries@.subrange(0, i + 1) =~= before.subrange(0, i as int).push(before[i as int]));
                assert forall|k: int| 0 <= k < self.entries@.len() - i - 1 implies #[trigger] self.entries@.subrange(i + 1, self.entries@.len() as int)[k]
                    == orig.subrange(j + 1, orig.len() as int)[k] by {
                    assert(before.subrange(i as int, before.len() as int)[k + 1] == orig.subrange(j, orig.len() as int)[k + 1]);
                }
                assert(self.entries@.subrange(i + 1, self.entries@.len() as int) =~= orig.subrange(j + 1, orig.len() as int));
                i = i + 1;
            }
            proof {
                j = j + 1;
            }
        }
        assert(self.entries@ =~= self.entries@.subrange(0, i as int));
        assert(orig.subrange(0, j) =~= orig);
        Ok(())
    }
}

impl OverlaysSection {
    /// The names of the pins.
    pub open spec fn names(&self) -> Seq<Seq<char>> {
        self.entries@.map_values(|e: OverlayEntry| e.name@)
    }

    /// The index of the first pin called `pin`.
    pub open spec fn first_pin(&self, pin: Seq<char>) -> int
        recommends
            self.names().contains(pin),
    {
        choose|i: int|
            0 <= i < self.entries.len() && #[trigger] self.names()[i] == pin && forall|j: int|
                0 <= j < i ==> #[trigger] self.names()[j] != pin
    }

    /// Finds the first pin called `pin_name`.
    fn find_pin(&self, pin_name: &str) -> (r: Option<usize>)
        ensures
            match r {
                Some(i) => i < self.entries.len() && i == self.first_pin(pin_name@) && self.names().contains(
                    pin_name@,
                ),
                None => !self.names().contains(pin_name@),
            },
    {
        let mut i: usize = 0;
        while i < self.entries.len()
            invariant
                i <= self.entries.len(),
                forall|j: int| 0 <= j < i ==> self.names()[j] != pin_name@,
            decreases self.entries.len() - i,
        {
            if same_text(self.entries[i].name.as_str(), pin_name) {
                proof {
                    let f = self.first_pin(pin_name@);
                    assert(self.names()[i as int] == pin_name@);
                    if f < i {
                        assert(self.names()[f] != pin_name@);
                    } else if f > i {
                        assert(self.names()[i as int] != pin_name@);
                    }
                }
                return Some(i);
            }
            i = i + 1;
        }
        None
    }

    /// Whether a pin is called `pin_name`.
    pub fn pin_entry_exists(&self, pin_name: &str) -> (r: bool)
        ensures
            r == self.names().contains(pin_name@),
    {
        self.find_pin(pin_name).is_some()
    }

    /// Adds an empty pin called `pin_name` at the end.  Fails with
    /// `Duplicate` when a pin is already called so.
    pub fn add_pin_entry(&mut self, pin_name: &str) -> (r: Result<(), EditError>)
        ensures
            old(self).names().contains(pin_name@) ==> {
                &&& r == Err::<(), EditError>(EditError::Duplicate)
                &&& final(self).entries@ == old(self).entries@
            },
            !old(self).names().contains(pin_name@) ==> {
                &&& r is Ok
                &&& final(self).entries@.len() == old(self).entries@.len() + 1
                &&& final(self).entries@.drop_last() == old(self).entries@
                &&& final(self).entries@.last().name@ == pin_name@
                &&& final(self).entries@.last().packages@.len() == 0
            },
            final(self).indentation == old(self).indentation,
    {
        if self.pin_entry_exists(pin_name) {
            return Err(EditError::Duplicate);
        }
        self.entries.push(OverlayEntry { name: String::from_str(pin_name), packages: Vec::new() });
        assert(self.entries@.drop_last() =~= old(self).entries@);
        Ok(())
    }

    /// Removes every pin called `pin_name`.  Fails with `NotFound` when
    /// there is none.
    pub fn remove_pin_entry(&mut self, pin_name: &str) -> (r: Result<(), EditError>)
        ensures
            !old(self).names().contains(pin_name@) ==> {
                &&& r == Err::<(), EditError>(EditError::NotFound)
                &&& final(self).entries@ == old(self).entries@
            },
            old(self).names().contains(pin_name@) ==> {
                &&& r is Ok
                &&& final(self).entries@ == old(self).entries@.filter(|e: OverlayEntry| e.name@ != pin_name@)
            },
            final(self).indentation == old(self).indentation,
    {
        let name = pin_name;
        if !self.pin_entry_exists(name) {
            return Err(EditError::NotFound);
        }
        let ghost pred = |e: OverlayEntry| e.name@ != name@;
        let ghost orig = self.entries@;
        let mut i: usize = 0;
        let ghost mut j: int = 0;
        while i < self.entries.len()
            invariant
                0 <= i <= j <= orig.len(),
                i <= self.entries.len(),
                self.entries@.len() - i == orig.len() - j,
                self.entries@.subrange(0, i as int) == orig.subrange(0, j).filter(pred),
                self.entries@.subrange(i as int, self.entries@.len() as int) == orig.subrange(j, orig.len() as int),
                pred == (|e: OverlayEntry| e.name@ != name@),
                self.indentation == old(self).indentation,
            decreases self.entries.len() - i,
        {
            let ghost before = self.entries@;
            assert(orig[j] == before[i as int]) by {
                assert(before.subrange(i as int, before.len() as int)[0] == before[i as int]);
            }
            assert(orig.subrange(0, j + 1).drop_last() =~= orig.subrange(0, j));
            proof {
                reveal(Seq::filter);
            }
            if same_text(self.entries[i].name.as_str(), name) {
                self.entries.remove(i);
                assert(self.entries@.subrange(0, i as int) =~= before.subrange(0, i as int));
                assert forall|k: int| 0 <= k < self.entries@.len() - i implies #[trigger] self.entries@.subrange(i as int, self.entries@.len() as int)[k]
                    == orig.subrange(j + 1, orig.len() as int)[k] by {
                    assert(self.entries@[i + k] == before[i + k + 1]);
                    assert(before.subrange(i as int, before.len() as int)[k + 1] == orig.subrange(j, orig.len() as int)[k + 1]);
                }
                assert(self.entries@ == before.remove(i as int));
                assert(self.entries@.len() == before.len() - 1);
                assert(self.entries@.len() - i == orig.len() - (j + 1));
                assert(self.entries@.subrange(i as int, self.entries@.len() as int) =~= orig.subrange(j + 1, orig.len() as int));
            } else {
                assert(self.entries@.subrange(0, i + 1) =~= before.subrange(0, i as int).push(before[i as int]));
                assert forall|k: int| 0 <= k < self.entries@.len() - i - 1 implies #[trigger] self.entries@.subrange(i + 1, self.entries@.len() as int)[k]
                    == orig.subrange(j + 1, orig.len() as int)[k] by {
                    assert(before.subrange(i as int, before.len() as int)[k + 1] == orig.subrange(j, orig.len() as int)[k + 1]);
                }
                assert(self.entries@.subrange(i + 1, self.entries@.len() as int) =~= orig.subrange(j + 1, orig.len() as int));
                i = i + 1;
            }
            proof {
                j = j + 1;
            }
        }
        assert(self.entries@ =~= self.entries@.subrange(0, i as int));
        assert(orig.subrange(0, j) =~= orig);
        Ok(())
    }

    /// Whether the first pin called `pin_name` holds a package under the
    /// alias `package_alias`.
    pub fn package_in_pin_exists(&self, pin_name: &str, package_alias: &str) -> (r: bool)
        ensures
            r == (self.names().contains(pin_name@) && self.entries[self.first_pin(pin_name@)].packages@.map_values(
                |p: PinnedPackage| p.pin_name@,
            ).contains(package_alias@)),
    {
        let i = match self.find_pin(pin_name) {
            Some(i) => i,
            None => {
                return false;
            },
        };
        let pkgs = &self.entries[i].packages;
        let ghost names = pkgs@.map_values(|p: PinnedPackage| p.pin_name@);
        let mut k: usize = 0;
        while k < pkgs.len()
            invariant
                k <= pkgs.len(),
                i < self.entries.len(),
                i == self.first_pin(pin_name@),
                self.names().contains(pin_name@),
                pkgs@ == self.entries@[i as int].packages@,
                names == pkgs@.map_values(|p: PinnedPackage| p.pin_name@),
                forall|j: int| 0 <= j < k ==> names[j] != package_alias@,
            decreases pkgs.len() - k,
        {
            if same_text(pkgs[k].pin_name.as_str(), package_alias) {
                assert(names[k as int] == package_alias@);
                return true;
            }
            k = k + 1;
        }
        false
    }

    /// Adds `package` under the alias `package_alias` to the first pin called
    /// `pin_name`.  Fails with `NotFound` when there is no such pin, and with
    /// `Duplicate` when the pin already holds that alias.
    pub fn add_package_to_pin(&mut self, pin_name: &str, package: &str, package_alias: &str) -> (r: Result<(), EditError>)
        ensures
            !old(self).names().contains(pin_name@) ==> {
                &&& r == Err::<(), EditError>(EditError::NotFound)
                &&& final(self).entries@ == old(self).entries@
            },
            old(self).names().contains(pin_name@) ==> {
                let i = old(self).first_pin(pin_name@);
                let before = old(self).entries@[i];
                if before.packages@.map_values(|p: PinnedPackage| p.pin_name@).contains(package_alias@) {
                    &&& r == Err::<(), EditError>(EditError::Duplicate)
                    &&& final(self).entries@ == old(self).entries@
                } else {
                    &&& r is Ok
                    &&& final(self).entries@.len() == old(self).entries@.len()
                    &&& forall|j: int| 0 <= j < old(self).entries@.len() && j != i ==> final(self).entries@[j] == old(self).entries@[j]
                    &&& final(self).entries@[i].name == before.name
                    &&& final(self).entries@[i].packages@.drop_last() == before.packages@
                    &&& final(self).entries@[i].packages@.len() == before.packages@.len() + 1
                    &&& final(self).entries@[i].packages@.last().name@ == package@
                    &&& final(self).entries@[i].packages@.last().pin_name@ == package_alias@
                }
            },
            final(self).indentation == old(self).indentation,
    {
        let i = match self.find_pin(pin_name) {
            Some(i) => i,
            None => {
                return Err(EditError::NotFound);
            },
        };
        let mut dup = false;
        let mut k: usize = 0;
        let ghost aliases = self.entries@[i as int].packages@.map_values(|p: PinnedPackage| p.pin_name@);
        while k < self.entries[i].packages.len()
            invariant
                i < self.entries.len(),
                k <= self.entries@[i as int].packages.len(),
                aliases == self.entries@[i as int].packages@.map_values(|p: PinnedPackage| p.pin_name@),
                dup == exists|j: int| 0 <= j < k && aliases[j] == package_alias@,
            decreases self.entries@[i as int].packages.len() - k,
        {
            if same_text(self.entries[i].packages[k].pin_name.as_str(), package_alias) {
                assert(aliases[k as int] == package_alias@);
                dup = true;
            }
            k = k + 1;
        }
        if dup {
            return Err(EditError::Duplicate);
        }
        assert(!aliases.contains(package_alias@));
        let mut e = self.entries.remove(i);
        let ghost before = e.packages@;
        e.packages.push(PinnedPackage { name: String::from_str(package), pin_name: String::from_str(package_alias) });
        assert(e.packages@.drop_last() =~= before);
        self.entries.insert(i, e);
        Ok(())
    }

    /// Removes every package named `package` from the first pin called
    /// `pin_name`.  Fails with `NotFound` when there is no such pin or it
    /// holds no such package.
    pub fn remove_package_from_pin(&mut self, pin_name: &str, package: &str) -> (r: Result<(), EditError>)
        ensures
            !old(self).names().contains(pin_name@) ==> {
                &&& r == Err::<(), EditError>(EditError::NotFound)
                &&& final(self).entries@ == old(self).entries@
            },
            old(self).names().contains(pin_name@) ==> {
                let i = old(self).first_pin(pin_name@);
                let before = old(self).entries@[i];
                if !before.packages@.map_values(|p: PinnedPackage| p.name@).contains(package@) {
                    &&& r == Err::<(), EditError>(EditError::NotFound)
                    &&& final(self).entries@ == old(self).entries@
                } else {
                    &&& r is Ok
                    &&& final(self).entries@.len() == old(self).entries@.len()
                    &&& forall|j: int| 0 <= j < old(self).entries@.len() && j != i ==> final(self).entries@[j] == old(self).entries@[j]
                    &&& final(self).entries@[i].name == before.name
                    &&& final(self).entries@[i].packages@ == before.packages@.filter(|p: PinnedPackage| p.name@ != package@)
                }
            },
            final(self).indentation == old(self).indentation,
    {
        let idx = match self.find_pin(pin_name) {
            Some(i) => i,
            None => {
                return Err(EditError::NotFound);
            },
        };
        let mut found = false;
        let mut k: usize = 0;
        let ghost names = self.entries@[idx as int].packages@.map_values(|p: PinnedPackage| p.name@);
        while k < self.entries[idx].packages.len()
            invariant
                idx < self.entries.len(),
                k <= self.entries@[idx as int].packages.len(),
                names == self.entries@[idx as int].packages@.map_values(|p: PinnedPackage| p.name@),
                found == exists|j: int| 0 <= j < k && names[j] == package@,
            decreases self.entries@[idx as int].packages.len() - k,
        {
            if same_text(self.entries[idx].packages[k].name.as_str(), package) {
                assert(names[k as int] == package@);
                found = true;
            }
            k = k + 1;
        }
        if !found {
            return Err(EditError::NotFound);
        }
        let ghost old_self = self.entries@;
        let OverlayEntry { name: entry_name, packages: mut pkgs } = self.entries.remove(idx);
        assert(pkgs@ == old_self[idx as int].packages@);
        let ghost pred = |e: PinnedPackage| e.name@ != package@;
        let ghost orig = pkgs@;
        let mut i: usize = 0;
        let ghost mut j: int = 0;
        while i < pkgs.len()
            invariant
                0 <= i <= j <= orig.len(),
                i <= pkgs.len(),
                pkgs@.len() - i == orig.len() - j,
                pkgs@.subrange(0, i as int) == orig.subrange(0, j).filter(pred),
                pkgs@.subrange(i as int, pkgs@.len() as int) == orig.subrange(j, orig.len() as int),
                pred == (|e: PinnedPackage| e.name@ != package@),
                idx < old_self.len(),
                self.entries@ == old_self.remove(idx as int),
                orig == old_self[idx as int].packages@,
                self.indentation == old(self).indentation,
            decreases pkgs.len() - i,
        {
            let ghost before = pkgs@;
            assert(orig[j] == before[i as int]) by {
                assert(before.subrange(i as int, before.len() as int)[0] == before[i as int]);
            }
            assert(orig.subrange(0, j + 1).drop_last() =~= orig.subrange(0, j));
            proof {
                reveal(Seq::filter);
            }
            if same_text(pkgs[i].name.as_str(), package) {
                pkgs.remove(i);
                assert(pkgs@.subrange(0, i as int) =~= before.subrange(0, i as int));
                assert forall|k: int| 0 <= k < pkgs@.len() - i implies #[trigger] pkgs@.subrange(i as int, pkgs@.len() as int)[k]
                    == orig.subrange(j + 1, orig.len() as int)[k] by {
                    assert(pkgs@[i + k] == before[i + k + 1]);
                    assert(before.subrange(i as int, before.len() as int)[k + 1] == orig.subrange(j, orig.len() as int)[k + 1]);
                }
                assert(pkgs@ == before.remove(i as int));
                assert(pkgs@.len() == before.len() - 1);
                assert(pkgs@.len() - i == orig.len() - (j + 1));
                assert(pkgs@.subrange(i as int, pkgs@.len() as int) =~= orig.subrange(j + 1, orig.len() as int));
            } else {
                assert(pkgs@.subrange(0, i + 1) =~= before.subrange(0, i as int).push(before[i as int]));
                assert forall|k: int| 0 <= k < pkgs@.len() - i - 1 implies #[trigger] pkgs@.subrange(i + 1, pkgs@.len() as int)[k]
                    == orig.subrange(j + 1, orig.len() as int)[k] by {
                    assert(before.subrange(i as int, before.len() as int)[k + 1] == orig.subrange(j, orig.len() as int)[k + 1]);
                }
                assert(pkgs@.subrange(i + 1, pkgs@.len() as int) =~= orig.subrange(j + 1, orig.len() as int));
                i = i + 1;
            }
            proof {
                j = j + 1;
            }
        }
        assert(pkgs@ =~= pkgs@.subrange(0, i as int));
        assert(orig.subrange(0, j) =~= orig);
        assert(pkgs@ == old_self[idx as int].packages@.filter(|e: PinnedPackage| e.name@ != package@));
        self.entries.insert(idx, OverlayEntry { name: entry_name, packages: pkgs });
        Ok(())
    }
}

} // verus!
