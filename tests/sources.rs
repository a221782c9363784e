use backupforge::engine::BackupEngine;
use backupforge::sources::{CloudProvider, DatabaseType, DockerConfig, ProxmoxConfig};
use backupforge::storage::StorageConfig;

#[test]
fn test_cloud_provider_config() {
    let aws = CloudProvider::AWS {
        region: "us-east-1".to_string(),
        access_key: "test".to_string(),
        secret_key: "test".to_string(),
    };

    assert!(matches!(aws, CloudProvider::AWS { .. }));

    let azure = CloudProvider::Azure {
        subscription_id: "test".to_string(),
        tenant_id: "test".to_string(),
        client_id: "test".to_string(),
        client_secret: "test".to_string(),
    };

    assert!(matches!(azure, CloudProvider::Azure { .. }));
}

#[test]
fn test_database_config() {
    let config = DatabaseType::PostgreSQL {
        host: "localhost".to_string(),
        port: 5432,
        database: "testdb".to_string(),
        username: "postgres".to_string(),
        password: "password".to_string(),
    };

    assert!(matches!(config, DatabaseType::PostgreSQL { .. }));
}

#[test]
fn test_docker_backup_creation() {
    let config = DockerConfig { docker_host: None };
    let _engine = BackupEngine::new(Default::default());
    let storage_config = StorageConfig::Local { path: "/tmp/test".to_string() };
    assert!(config.docker_host.is_none());
    assert!(matches!(storage_config, StorageConfig::Local { .. }));
}

#[test]
fn test_proxmox_backup_creation() {
    let config = ProxmoxConfig {
        host: "pve.example.com".to_string(),
        port: 8006,
        username: "root@pam".to_string(),
        password: "password".to_string(),
        node: "pve".to_string(),
        verify_ssl: false,
    };

    let _engine = BackupEngine::new(Default::default());
    let storage_config = StorageConfig::Local { path: "/tmp/test".to_string() };
    assert_eq!(config.port, 8006);
    assert!(matches!(storage_config, StorageConfig::Local { .. }));
}
