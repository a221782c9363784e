use vstd::prelude::*;

verus! {

/// Connection settings of a cloud provider whose virtual machines are backed up.
#[derive(Debug, Clone)]
pub enum CloudProvider {
    AWS { region: String, access_key: String, secret_key: String },
    Azure { subscription_id: String, tenant_id: String, client_id: String, client_secret: String },
    GCP { project_id: String, credentials_path: String },
}

/// A virtual machine as a cloud provider lists it.
#[derive(Debug, Clone)]
pub struct CloudVMInfo {
    pub id: String,
    pub name: String,
    pub state: String,
    pub instance_type: String,
    pub region: String,
}

/// Connection settings of a database whose dump is backed up.
#[derive(Debug, Clone)]
pub enum DatabaseType {
    PostgreSQL { host: String, port: u16, database: String, username: String, password: String },
    MySQL { host: String, port: u16, database: String, username: String, password: String },
    MongoDB {
        host: String,
        port: u16,
        database: String,
        username: Option<String>,
        password: Option<String>,
    },
    Redis { host: String, port: u16, password: Option<String> },
}

/// Where the Docker daemon listens; the local default when absent.
#[derive(Debug, Clone)]
pub struct DockerConfig {
    pub docker_host: Option<String>,
}

/// A container as the Docker daemon lists it.
#[derive(Debug, Clone)]
pub struct ContainerInfo {
    pub id: String,
    pub name: String,
    pub image: String,
    pub status: String,
}

/// Connection settings of a Proxmox host.
#[derive(Debug, Clone)]
pub struct ProxmoxConfig {
    pub host: String,
    pub port: u16,
    pub username: String,
    pub password: String,
    pub node: String,
    pub verify_ssl: bool,
}

} // verus!
