# xfast_manager

The verified core of an X-Plane add-on manager, written in Verus.

`src/` holds the library: parsers of the files the manager reads
(`apt.dat`, updater configurations and manifests, release feeds, CSL
indexes), the update plans of the supported updaters, and the decisions
taken between file system and network work (which files to link, back up,
remove or download, and what to report). Every public function states its
result in its contract; the laws of the library (round trips, idempotence,
what an update keeps) are proof functions in the `*_laws.rs` modules and in
the modules they speak of.

`app/` holds the unverified glue: reading and writing files, walking
folders, and converting JSON documents. Network transfers are handed in by
the caller as functions.

`tests/` runs the library on concrete values.
