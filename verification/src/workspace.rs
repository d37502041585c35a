//! Workspaces: a project, and who works on it.

use std::ops::Range;

use vstd::prelude::*;

use crate::buffer::{BufferId, ReplicaId};
use crate::point::Point;
use crate::project::{LocalProject, RemoteProject, ServiceId};

verus! {

/// A project, and who works on it.
pub trait Workspace {
    type Project;

    spec fn spec_replica_id(&self) -> ReplicaId;

    spec fn spec_project(&self) -> Self::Project;

    fn replica_id(&self) -> (replica_id: ReplicaId)
        ensures
            replica_id == self.spec_replica_id(),
    ;

    fn project(&self) -> (project: &Self::Project)
        ensures
            *project == self.spec_project(),
    ;

    /// The project, to be changed in place.
    fn project_mut(&mut self) -> (project: &mut Self::Project)
        ensures
            *project == old(self).spec_project(),
            final(self).spec_project() == *final(project),
            final(self).spec_replica_id() == old(self).spec_replica_id(),
    ;
}

/// A workspace on this machine.
pub struct LocalWorkspace {
    replica_id: ReplicaId,
    project: LocalProject,
}

/// A workspace that is reached through a connection.
pub struct RemoteWorkspace {
    replica_id: ReplicaId,
    project: RemoteProject,
}

/// What a client is told of a workspace first: the service of its project.
#[derive(Clone, Copy, Debug, PartialEq, Eq, Structural)]
pub struct ServiceState {
    pub project: ServiceId,
}

/// A stretch of a text in a buffer.
#[derive(Debug)]
pub struct Anchor {
    pub buffer_id: BufferId,
    pub range: Range<Point>,
}

impl Clone for Anchor {
    fn clone(&self) -> (copy: Anchor)
        ensures
            copy == *self,
    {
        Anchor { buffer_id: self.buffer_id, range: self.range.start..self.range.end }
    }
}

impl LocalWorkspace {
    pub fn new(replica_id: ReplicaId, project: LocalProject) -> (workspace: LocalWorkspace)
        ensures
            workspace.spec_replica_id() == replica_id,
            workspace.spec_project() == project,
    {
        LocalWorkspace { replica_id, project }
    }
}

impl Workspace for LocalWorkspace {
    type Project = LocalProject;

    closed spec fn spec_replica_id(&self) -> ReplicaId {
        self.replica_id
    }

    closed spec fn spec_project(&self) -> LocalProject {
        self.project
    }

    fn replica_id(&self) -> (replica_id: ReplicaId) {
        self.replica_id
    }

    fn project(&self) -> (project: &LocalProject) {
        &self.project
    }

    fn project_mut(&mut self) -> (project: &mut LocalProject) {
        &mut self.project
    }
}

impl RemoteWorkspace {
    pub fn new(replica_id: ReplicaId, project: RemoteProject) -> (workspace: RemoteWorkspace)
        ensures
            workspace.spec_replica_id() == replica_id,
            workspace.spec_project() == project,
    {
        RemoteWorkspace { replica_id, project }
    }
}

impl Workspace for RemoteWorkspace {
    type Project = RemoteProject;

    closed spec fn spec_replica_id(&self) -> ReplicaId {
        self.replica_id
    }

    closed spec fn spec_project(&self) -> RemoteProject {
        self.project
    }

    fn replica_id(&self) -> (replica_id: ReplicaId) {
        self.replica_id
    }

    fn project(&self) -> (project: &RemoteProject) {
        &self.project
    }

    fn project_mut(&mut self) -> (project: &mut RemoteProject) {
        &mut self.project
    }
}

/// Serves a workspace to a client.
pub struct WorkspaceService;

impl WorkspaceService {
    /// What a client is told first, where the project has got its service.
    pub fn init(project: ServiceId) -> (state: ServiceState)
        ensures
            state == (ServiceState { project }),
    {
        ServiceState { project }
    }
}

} // verus!
