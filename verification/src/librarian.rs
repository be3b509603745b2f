//! The librarian: building libraries from object files.

use crate::logger::Logger;
use crate::types::errors::LibError;
use crate::linker::editor::{link_spec, linked, own_modules, shared_config, LinkObjType};
use crate::linker::libs::{lib_wf, libs_wf};
use crate::linker::state::{LinkState, LinkerInfo};
use crate::table::deep;
use crate::types::errors::LinkError;
use crate::types::library::{dirlib_files, filelib_text, StaticLib};
use crate::types::out::ObjectOut;
use vstd::prelude::*;

verus! {

/// A librarian.
pub struct Librarian {
    pub logger: Logger,
}

impl Librarian {
    /// A librarian whose logger prints.
    pub fn new(silent: bool) -> (l: Librarian)
        ensures
            l.logger.silent == silent,
    {
        Librarian { logger: Logger::new_stdout_logger(silent) }
    }

    /// The files of the library directory that is built from the given
    /// object files: the object files as they are, then the `MAP` file.
    pub fn build_libdir(&mut self, object_files: &Vec<(String, String)>) -> (r: Result<
        Vec<(String, String)>,
        LibError,
    >)
        ensures
            match r {
                Ok(out) => dirlib_files(object_files.deep_view()) == Ok::<
                    Seq<(Seq<char>, Seq<char>)>,
                    LibError,
                >(out.deep_view()),
                Err(e) => dirlib_files(object_files.deep_view()) == Err::<
                    Seq<(Seq<char>, Seq<char>)>,
                    LibError,
                >(e),
            },
            final(self).logger.logger_ty == old(self).logger.logger_ty,
            final(self).logger.silent == old(self).logger.silent,
            final(self).logger.entries() == if old(self).logger.logger_ty
                == crate::logger::LoggerType::TestLogger {
                old(self).logger.entries().push((crate::logger::LogLevel::Info, "Building static libdir"@))
            } else {
                old(self).logger.entries()
            },
    {
        let _ = self.logger.do_log(crate::logger::LogLevel::Info, "Building static libdir");
        StaticLib::build_static_dirlib(object_files)
    }

    /// The text of the library file that is built from the given object files.
    pub fn build_libfile(&mut self, object_files: &Vec<(String, String)>) -> (r: Result<
        String,
        LibError,
    >)
        ensures
            match r {
                Ok(s) => filelib_text(object_files.deep_view()) == Ok::<Seq<char>, LibError>(s@),
                Err(e) => filelib_text(object_files.deep_view()) == Err::<Seq<char>, LibError>(e),
            },
            final(self).logger.logger_ty == old(self).logger.logger_ty,
            final(self).logger.silent == old(self).logger.silent,
            final(self).logger.entries() == if old(self).logger.logger_ty
                == crate::logger::LoggerType::TestLogger {
                old(self).logger.entries().push((crate::logger::LogLevel::Info, "Building static libfile"@))
            } else {
                old(self).logger.entries()
            },
    {
        let _ = self.logger.do_log(crate::logger::LogLevel::Info, "Building static libfile");
        StaticLib::build_static_filelib(object_files)
    }
}


impl Librarian {
    /// Links the modules of a library into a shared library whose text
    /// starts at `start`, with the libraries that it depends on.
    pub fn build_static_shared_lib(&mut self, lib: &StaticLib, libdeps: Vec<StaticLib>, start: i32)
        -> (r: Result<(ObjectOut, LinkerInfo), LinkError>)
        requires
            lib_wf(lib.deep_view()),
            libs_wf(deep(libdeps@)),
        ensures
            match r {
                Ok(p) => link_spec(
                    shared_config(start),
                    own_modules(lib.deep_view()).keys,
                    own_modules(lib.deep_view()).values,
                    deep(libdeps@),
                    Seq::empty(),
                    LinkObjType::SharedLib,
                ) is Ok && link_spec(
                    shared_config(start),
                    own_modules(lib.deep_view()).keys,
                    own_modules(lib.deep_view()).values,
                    deep(libdeps@),
                    Seq::empty(),
                    LinkObjType::SharedLib,
                )->Ok_0.out == p.0@ && link_spec(
                    shared_config(start),
                    own_modules(lib.deep_view()).keys,
                    own_modules(lib.deep_view()).values,
                    deep(libdeps@),
                    Seq::empty(),
                    LinkObjType::SharedLib,
                )->Ok_0.info == p.1@ && linked(shared_config(start), p.0@, p.1@),
                Err(e) => link_spec(
                    shared_config(start),
                    own_modules(lib.deep_view()).keys,
                    own_modules(lib.deep_view()).values,
                    deep(libdeps@),
                    Seq::empty(),
                    LinkObjType::SharedLib,
                ) == Err::<LinkState, LinkError>(e),
            },
            final(self).logger.logger_ty == old(self).logger.logger_ty,
            final(self).logger.silent == old(self).logger.silent,
            final(self).logger.entries() == if old(self).logger.logger_ty
                == crate::logger::LoggerType::TestLogger {
                old(self).logger.entries().push((crate::logger::LogLevel::Info, "Building statically linked shared library"@))
            } else {
                old(self).logger.entries()
            },
    {
        let _ = self.logger.do_log(
            crate::logger::LogLevel::Info,
            "Building statically linked shared library",
        );
        lib.build_shared_lib(start, libdeps)
    }
}

} // verus!
